//! Selection helpers: a hashed pivot choice, a partition around a chosen pivot, and
//! quickselect.
use vstd::prelude::*;
use vstd::seq_lib::*;
use vstd::multiset::*;
use std::hash::{Hash, Hasher};
use crate::point::Point;
use crate::utils::{key, indices_in_bounds, swap_entries, lemma_multiset_member};

pub use crate::utils::shell_sort;

verus! {

broadcast use group_to_multiset_ensures, group_multiset_axioms;

/// Relies on `DefaultHasher::new`, `Hash::hash` and `Hasher::finish`: hashes `t` with the
/// standard library's default hasher. Nothing is assumed of the value.
#[verifier::external_body]
fn default_hash(t: usize) -> (r: u64) {
    let mut s = std::collections::hash_map::DefaultHasher::new();
    t.hash(&mut s);
    s.finish()
}

/// Hashes `t` with the standard library's default hasher.
pub fn calculate_hash(t: usize) -> (r: u64) {
    default_hash(t)
}

/// A position below `len` picked by hashing the seed scaled by one hundred; a seed that is
/// not positive counts as zero.
pub fn random_index(len: usize, seed: i32) -> (r: usize)
    requires
        len > 0,
    ensures
        r < len,
{
    let scaled: usize = if seed <= 0 {
        0
    } else {
        match (seed as usize).checked_mul(100) {
            Some(v) => v,
            None => usize::MAX,
        }
    };
    let val = calculate_hash(scaled);
    (val % (len as u64)) as usize
}

/// Moves the entry at `pivot_index` to its sorted place on `axis` and returns that place:
/// entries before it lie strictly below it, entries after it do not.
pub fn partition<P: Point<D>, const D: usize>(
    points: &[P],
    indices: &mut Vec<usize>,
    pivot_index: usize,
    axis: usize,
) -> (r: usize)
    requires
        pivot_index < old(indices)@.len(),
        axis < D,
        indices_in_bounds(points@.len() as int, old(indices)@),
    ensures
        r < final(indices)@.len(),
        final(indices)@.len() == old(indices)@.len(),
        indices_in_bounds(points@.len() as int, final(indices)@),
        final(indices)@.to_multiset() == old(indices)@.to_multiset(),
        final(indices)@[r as int] == old(indices)@[pivot_index as int],
        forall|k: int|
            0 <= k < r ==> #[trigger] key::<P, D>(points@, final(indices)@[k], axis as int) < key::<P, D>(
                points@,
                final(indices)@[r as int],
                axis as int,
            ),
        forall|k: int|
            r < k < final(indices)@.len() ==> #[trigger] key::<P, D>(points@, final(indices)@[k], axis as int)
                >= key::<P, D>(points@, final(indices)@[r as int], axis as int),
{
    let end_index = indices.len() - 1;
    let ghost orig = indices@;
    swap_entries(indices, pivot_index, end_index);
    let ghost moved = indices@;
    let r = crate::utils::partition(points, indices, 0, indices.len(), axis);
    proof {
        assert forall|k: int| 0 <= k < indices@.len() implies #[trigger] indices@[k] < points@.len() by {
            assert(crate::utils::range_in_bounds(points@.len() as int, indices@, 0, indices@.len() as int));
        }
        assert(indices@.subrange(0, indices@.len() as int) =~= indices@);
        assert(moved.subrange(0, moved.len() as int) =~= moved);
        assert(moved[end_index as int] == orig[pivot_index as int]);
    }
    r
}

/// Some entry of `v` in `[lo, hi)` is `x`.
pub open spec fn held_in(v: Seq<usize>, lo: int, hi: int, x: usize) -> bool {
    exists|k: int| lo <= k < hi && #[trigger] v[k] == x
}

/// Rearranges `indices` so that position `index` holds the entry a sort on `axis` would put
/// there, with no greater entry before it and no smaller one after it; returns `index`.
/// Pivots are picked by hashing the first coordinate of the entry at `index`.
pub fn quickselect<P: Point<D>, const D: usize>(
    points: &[P],
    indices: &mut Vec<usize>,
    index: usize,
    axis: usize,
) -> (r: usize)
    requires
        index < old(indices)@.len(),
        axis < D,
        indices_in_bounds(points@.len() as int, old(indices)@),
    ensures
        r == index,
        final(indices)@.len() == old(indices)@.len(),
        indices_in_bounds(points@.len() as int, final(indices)@),
        final(indices)@.to_multiset() == old(indices)@.to_multiset(),
        forall|k: int|
            0 <= k < index ==> #[trigger] key::<P, D>(points@, final(indices)@[k], axis as int) <= key::<P, D>(
                points@,
                final(indices)@[index as int],
                axis as int,
            ),
        forall|k: int|
            index < k < final(indices)@.len() ==> #[trigger] key::<P, D>(points@, final(indices)@[k], axis as int)
                >= key::<P, D>(points@, final(indices)@[index as int], axis as int),
{
    let ghost orig = indices@;
    let n = indices.len();
    let mut lo: usize = 0;
    let mut hi: usize = n;
    loop
        invariant
            lo <= index < hi <= n,
            indices@.len() == n,
            n == orig.len(),
            orig == old(indices)@,
            axis < D,
            indices_in_bounds(points@.len() as int, indices@),
            indices@.to_multiset() == orig.to_multiset(),
            forall|a: int, b: int|
                0 <= a < lo <= b < n ==> #[trigger] key::<P, D>(points@, indices@[a], axis as int) <= #[trigger] key::<
                    P,
                    D,
                >(points@, indices@[b], axis as int),
            forall|a: int, b: int|
                0 <= a < hi <= b < n ==> #[trigger] key::<P, D>(points@, indices@[a], axis as int) <= #[trigger] key::<
                    P,
                    D,
                >(points@, indices@[b], axis as int),
        decreases hi - lo,
    {
        let ghost v = indices@;
        let seed = if D > 0 {
            points[indices[index]].get_axis(0)
        } else {
            0
        };
        let pick = lo + random_index(hi - lo, seed);
        swap_entries(indices, pick, hi - 1);
        let ghost w = indices@;
        let p = crate::utils::partition(points, indices, lo, hi, axis);
        let ghost nv = indices@;
        proof {
            assert forall|k: int| 0 <= k < n implies #[trigger] nv[k] < points@.len() by {
                if k < lo {
                    assert(nv[k] == nv.subrange(0, lo as int)[k]);
                    assert(w[k] == w.subrange(0, lo as int)[k]);
                } else if k >= hi {
                    assert(nv[k] == nv.subrange(hi as int, n as int)[k - hi]);
                    assert(w[k] == w.subrange(hi as int, n as int)[k - hi]);
                } else {
                    assert(crate::utils::range_in_bounds(points@.len() as int, nv, lo as int, hi as int));
                }
            }
            assert(w.subrange(lo as int, hi as int) =~= crate::utils::swapped(
                v.subrange(lo as int, hi as int),
                pick - lo,
                hi - 1 - lo,
            ));
            crate::utils::lemma_swap_multiset(v.subrange(lo as int, hi as int), pick - lo, hi - 1 - lo);
            assert forall|k: int| 0 <= k < n && !(lo <= k < hi) implies #[trigger] nv[k] == v[k] by {
                if k < lo {
                    assert(nv[k] == nv.subrange(0, lo as int)[k]);
                    assert(w[k] == w.subrange(0, lo as int)[k]);
                } else {
                    assert(nv[k] == nv.subrange(hi as int, n as int)[k - hi]);
                    assert(w[k] == w.subrange(hi as int, n as int)[k - hi]);
                }
            }
            // an entry now inside the range was inside it before
            assert forall|k: int| lo <= k < hi implies #[trigger] held_in(v, lo as int, hi as int, nv[k]) by {
                let k2 = lemma_multiset_member(
                    nv.subrange(lo as int, hi as int),
                    v.subrange(lo as int, hi as int),
                    k - lo,
                );
                assert(v[lo + k2] == nv[k]);
            }
        }
        if index == p {
            proof {
                assert forall|k: int| 0 <= k < index implies #[trigger] key::<P, D>(points@, nv[k], axis as int) <= key::<P, D>(
                    points@,
                    nv[index as int],
                    axis as int,
                ) by {
                    if k < lo {
                        assert(held_in(v, lo as int, hi as int, nv[index as int]));
                        let k2 = choose|k2: int| lo <= k2 < hi && #[trigger] v[k2] == nv[index as int];
                        assert(key::<P, D>(points@, v[k], axis as int) <= key::<P, D>(points@, v[k2], axis as int));
                    }
                }
                assert forall|k: int| index < k < n implies #[trigger] key::<P, D>(points@, nv[k], axis as int) >= key::<P, D>(
                    points@,
                    nv[index as int],
                    axis as int,
                ) by {
                    if k >= hi {
                        assert(held_in(v, lo as int, hi as int, nv[index as int]));
                        let k2 = choose|k2: int| lo <= k2 < hi && #[trigger] v[k2] == nv[index as int];
                        assert(key::<P, D>(points@, v[k2], axis as int) <= key::<P, D>(points@, v[k], axis as int));
                    }
                }
            }
            return p;
        }
        proof {
            let new_lo: int = if index < p { lo as int } else { p + 1 };
            let new_hi: int = if index < p { p as int } else { hi as int };
            assert forall|a: int, b: int| 0 <= a < new_lo <= b < n implies #[trigger] key::<P, D>(points@, nv[a], axis as int)
                <= #[trigger] key::<P, D>(points@, nv[b], axis as int) by {
                if a < lo {
                    if b < hi {
                        assert(held_in(v, lo as int, hi as int, nv[b]));
                        let b2 = choose|k2: int| lo <= k2 < hi && #[trigger] v[k2] == nv[b];
                        assert(key::<P, D>(points@, v[a], axis as int) <= key::<P, D>(points@, v[b2], axis as int));
                    }
                } else if b < hi {
                    assert(a <= p && b > p);
                    assert(key::<P, D>(points@, nv[b], axis as int) >= key::<P, D>(points@, nv[p as int], axis as int));
                    if a < p {
                        assert(key::<P, D>(points@, nv[a], axis as int) < key::<P, D>(points@, nv[p as int], axis as int));
                    }
                } else {
                    assert(held_in(v, lo as int, hi as int, nv[a]));
                    let a2 = choose|k2: int| lo <= k2 < hi && #[trigger] v[k2] == nv[a];
                    assert(key::<P, D>(points@, v[a2], axis as int) <= key::<P, D>(points@, v[b], axis as int));
                }
            }
            assert forall|a: int, b: int| 0 <= a < new_hi <= b < n implies #[trigger] key::<P, D>(points@, nv[a], axis as int)
                <= #[trigger] key::<P, D>(points@, nv[b], axis as int) by {
                if b >= hi {
                    if a >= lo {
                        assert(held_in(v, lo as int, hi as int, nv[a]));
                        let a2 = choose|k2: int| lo <= k2 < hi && #[trigger] v[k2] == nv[a];
                        assert(key::<P, D>(points@, v[a2], axis as int) <= key::<P, D>(points@, v[b], axis as int));
                    }
                } else if a >= lo {
                    assert(a < p && b >= p);
                    assert(key::<P, D>(points@, nv[a], axis as int) < key::<P, D>(points@, nv[p as int], axis as int));
                    if b > p {
                        assert(key::<P, D>(points@, nv[b], axis as int) >= key::<P, D>(points@, nv[p as int], axis as int));
                    }
                } else {
                    assert(held_in(v, lo as int, hi as int, nv[b]));
                    let b2 = choose|k2: int| lo <= k2 < hi && #[trigger] v[k2] == nv[b];
                    assert(key::<P, D>(points@, v[a], axis as int) <= key::<P, D>(points@, v[b2], axis as int));
                }
            }
        }
        if index < p {
            hi = p;
        } else {
            lo = p + 1;
        }
    }
}

} // verus!
