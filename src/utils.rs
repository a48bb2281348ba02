//! Sorting of point indices along one axis, with the strategies the tree builder can use.
use vstd::prelude::*;
use vstd::seq_lib::*;
use vstd::multiset::*;
use vstd::set_lib::*;
use vstd::relations::*;
use crate::point::Point;

verus! {

broadcast use group_to_multiset_ensures, group_multiset_axioms;

/// Depending on the nature of the data, some strategies work better than others.
#[derive(Debug, Clone, Copy, PartialEq, Eq, Structural)]
pub enum SortingStrategy {
    StableSort,
    UnstableSort,
    ShellSort,
    HeapSort,
    QuickSort,
}

impl Default for SortingStrategy {
    fn default() -> (r: Self)
        ensures
            r == SortingStrategy::QuickSort,
    {
        SortingStrategy::QuickSort
    }
}

/// The coordinate on `axis` of the point with index `id`.
pub open spec fn key<P: Point<D>, const D: usize>(points: Seq<P>, id: usize, axis: int) -> int {
    points[id as int].coord(axis)
}

/// Every entry of `ids` is an index into a slice of length `n`.
pub open spec fn indices_in_bounds(n: int, ids: Seq<usize>) -> bool {
    forall|k: int| 0 <= k < ids.len() ==> #[trigger] ids[k] < n
}

/// The entries of `ids` in `[start, end)` are indices into a slice of length `n`.
pub open spec fn range_in_bounds(n: int, ids: Seq<usize>, start: int, end: int) -> bool {
    forall|k: int| start <= k < end ==> #[trigger] ids[k] < n
}

/// The points referenced by `ids` have non-decreasing coordinates on `axis`.
pub open spec fn sorted_on_axis<P: Point<D>, const D: usize>(
    points: Seq<P>,
    ids: Seq<usize>,
    axis: int,
) -> bool {
    forall|i: int, j: int|
        0 <= i < j < ids.len() ==> #[trigger] key::<P, D>(points, ids[i], axis) <= #[trigger] key::<P, D>(
            points,
            ids[j],
            axis,
        )
}

/// `after` holds the entries of `before`, reordered by their coordinate on `axis`.
pub open spec fn sorts_indices<P: Point<D>, const D: usize>(
    points: Seq<P>,
    before: Seq<usize>,
    after: Seq<usize>,
    axis: int,
) -> bool {
    &&& after.to_multiset() == before.to_multiset()
    &&& indices_in_bounds(points.len() as int, after)
    &&& sorted_on_axis::<P, D>(points, after, axis)
}

/// Entries of `after` with equal coordinates on `axis` come in the order they had in
/// `before` (when `before` names each index once).
pub open spec fn keeps_ties_in_order<P: Point<D>, const D: usize>(
    points: Seq<P>,
    before: Seq<usize>,
    after: Seq<usize>,
    axis: int,
) -> bool {
    before.no_duplicates() ==> forall|i: int, j: int|
        0 <= i < j < after.len() && key::<P, D>(points, after[i], axis) == key::<P, D>(
            points,
            after[j],
            axis,
        ) ==> before.index_of(after[i]) < before.index_of(after[j])
}

/// `after` holds the entries of `before` in some order, all of them valid indices.
pub open spec fn permutes_indices(n: int, before: Seq<usize>, after: Seq<usize>) -> bool {
    &&& after.to_multiset() == before.to_multiset()
    &&& indices_in_bounds(n, after)
}

/// `s` with the entries at `i` and `j` exchanged.
pub open spec fn swapped<T>(s: Seq<T>, i: int, j: int) -> Seq<T> {
    s.update(i, s[j]).update(j, s[i])
}

pub proof fn lemma_update_multiset<T>(s: Seq<T>, i: int, v: T)
    requires
        0 <= i < s.len(),
    ensures
        s.update(i, v).to_multiset() =~= s.to_multiset().remove(s[i]).insert(v),
{
    let t = s.update(i, v);
    assert(t.remove(i) =~= s.remove(i));
    assert(t[i] == v);
    assert(t.to_multiset().remove(v) =~= s.to_multiset().remove(s[i]));
    assert(t.to_multiset().count(v) > 0);
    assert(t.to_multiset() =~= t.to_multiset().remove(v).insert(v));
}

/// Exchanging two entries keeps the multiset of entries.
pub proof fn lemma_swap_multiset<T>(s: Seq<T>, i: int, j: int)
    requires
        0 <= i < s.len(),
        0 <= j < s.len(),
    ensures
        swapped(s, i, j).to_multiset() =~= s.to_multiset(),
{
    let t = s.update(i, s[j]);
    lemma_update_multiset(s, i, s[j]);
    lemma_update_multiset(t, j, s[i]);
    if i == j {
        assert(swapped(s, i, j) =~= s);
    } else {
        assert(t[j] == s[j]);
        assert(s.to_multiset().count(s[i]) > 0);
        assert(s.to_multiset().remove(s[i]).insert(s[j]).remove(s[j]) =~= s.to_multiset().remove(
            s[i],
        ));
        assert(s.to_multiset().remove(s[i]).insert(s[i]) =~= s.to_multiset());
    }
}

/// Replacing the part `[lo, hi)` by one with the same multiset keeps the whole multiset.
pub proof fn lemma_splice_multiset<T>(a: Seq<T>, b: Seq<T>, lo: int, hi: int)
    requires
        0 <= lo <= hi <= a.len(),
        a.len() == b.len(),
        a.subrange(0, lo) == b.subrange(0, lo),
        a.subrange(hi, a.len() as int) == b.subrange(hi, b.len() as int),
        a.subrange(lo, hi).to_multiset() == b.subrange(lo, hi).to_multiset(),
    ensures
        a.to_multiset() == b.to_multiset(),
{
    assert(a =~= a.subrange(0, lo) + a.subrange(lo, hi) + a.subrange(hi, a.len() as int));
    assert(b =~= b.subrange(0, lo) + b.subrange(lo, hi) + b.subrange(hi, b.len() as int));
    lemma_multiset_commutative(a.subrange(0, lo), a.subrange(lo, hi));
    lemma_multiset_commutative(a.subrange(0, lo) + a.subrange(lo, hi), a.subrange(hi, a.len() as int));
    lemma_multiset_commutative(b.subrange(0, lo), b.subrange(lo, hi));
    lemma_multiset_commutative(b.subrange(0, lo) + b.subrange(lo, hi), b.subrange(hi, b.len() as int));
}

/// An entry of a sequence is an entry of every sequence with the same multiset.
pub proof fn lemma_multiset_member<T>(a: Seq<T>, b: Seq<T>, k: int) -> (k2: int)
    requires
        a.to_multiset() == b.to_multiset(),
        0 <= k < a.len(),
    ensures
        0 <= k2 < b.len(),
        b[k2] == a[k],
{
    assert(a.contains(a[k]));
    assert(b.to_multiset().count(a[k]) > 0);
    choose|k2: int| 0 <= k2 < b.len() && b[k2] == a[k]
}

/// Exchanges the entries at `i` and `j`.
pub fn swap_entries(v: &mut Vec<usize>, i: usize, j: usize)
    requires
        i < old(v).len(),
        j < old(v).len(),
    ensures
        final(v)@ == swapped(old(v)@, i as int, j as int),
        final(v)@.to_multiset() == old(v)@.to_multiset(),
{
    proof {
        lemma_swap_multiset(v@, i as int, j as int);
    }
    let a = v[i];
    let b = v[j];
    v.set(i, b);
    v.set(j, a);
}

/// Compares the points with indices `a` and `b` by their coordinate on `axis`.
pub fn point_axis_compare<P: Point<D>, const D: usize>(
    points: &[P],
    a: usize,
    b: usize,
    axis: usize,
) -> (r: std::cmp::Ordering)
    requires
        a < points@.len(),
        b < points@.len(),
        axis < D,
    ensures
        (r == std::cmp::Ordering::Less) == (key::<P, D>(points@, a, axis as int) < key::<P, D>(
            points@,
            b,
            axis as int,
        )),
        (r == std::cmp::Ordering::Equal) == (key::<P, D>(points@, a, axis as int) == key::<P, D>(
            points@,
            b,
            axis as int,
        )),
        (r == std::cmp::Ordering::Greater) == (key::<P, D>(points@, a, axis as int) > key::<P, D>(
            points@,
            b,
            axis as int,
        )),
{
    let x = points[a].get_axis(axis);
    let y = points[b].get_axis(axis);
    if x < y {
        std::cmp::Ordering::Less
    } else if x == y {
        std::cmp::Ordering::Equal
    } else {
        std::cmp::Ordering::Greater
    }
}

/// Relies on `slice::sort_by`: with a comparator that is a total order, the result is the
/// input reordered so that the comparator never finds an entry greater than a later one, and
/// the sort is stable, so entries that compare equal keep their relative order.
#[verifier::external_body]
pub fn stable_sort<P: Point<D>, const D: usize>(points: &[P], indices: &mut Vec<usize>, axis: usize)
    requires
        axis < D,
        indices_in_bounds(points@.len() as int, old(indices)@),
    ensures
        (sorts_indices::<P, D>(points@, old(indices)@, final(indices)@, axis as int)),
        (keeps_ties_in_order::<P, D>(points@, old(indices)@, final(indices)@, axis as int)),
{
    indices.sort_by(|a, b| point_axis_compare(points, *a, *b, axis));
}

/// Relies on `slice::sort_unstable_by`: with a comparator that is a total order, the result is
/// the input reordered so that the comparator never finds an entry greater than a later one.
#[verifier::external_body]
pub fn unstable_sort<P: Point<D>, const D: usize>(
    points: &[P],
    indices: &mut Vec<usize>,
    axis: usize,
)
    requires
        axis < D,
        indices_in_bounds(points@.len() as int, old(indices)@),
    ensures
        (sorts_indices::<P, D>(points@, old(indices)@, final(indices)@, axis as int)),
{
    indices.sort_unstable_by(|a, b| point_axis_compare(points, *a, *b, axis));
}

/// Lomuto partition of `indices[start..end)` around its last entry: returns the pivot's final
/// position `p`; entries before it lie strictly below the pivot on `axis`, entries after it
/// do not.
pub fn partition<P: Point<D>, const D: usize>(
    points: &[P],
    indices: &mut Vec<usize>,
    start: usize,
    end: usize,
    axis: usize,
) -> (p: usize)
    requires
        start < end <= old(indices).len(),
        axis < D,
        range_in_bounds(points@.len() as int, old(indices)@, start as int, end as int),
    ensures
        start <= p < end,
        final(indices)@[p as int] == old(indices)@[end - 1],
        final(indices)@.len() == old(indices)@.len(),
        range_in_bounds(points@.len() as int, final(indices)@, start as int, end as int),
        final(indices)@.subrange(0, start as int) == old(indices)@.subrange(0, start as int),
        final(indices)@.subrange(end as int, old(indices)@.len() as int) == old(indices)@.subrange(
            end as int,
            old(indices)@.len() as int,
        ),
        final(indices)@.subrange(start as int, end as int).to_multiset() == old(
            indices,
        )@.subrange(start as int, end as int).to_multiset(),
        final(indices)@.to_multiset() == old(indices)@.to_multiset(),
        forall|k: int|
            start <= k < p ==> #[trigger] key::<P, D>(points@, final(indices)@[k], axis as int)
                < key::<P, D>(points@, final(indices)@[p as int], axis as int),
        forall|k: int|
            p < k < end ==> #[trigger] key::<P, D>(points@, final(indices)@[k], axis as int)
                >= key::<P, D>(points@, final(indices)@[p as int], axis as int),
{
    let ghost orig = indices@;
    let n = indices.len();
    let mut i = start;
    let pivot = end - 1;
    let pivot_val = points[indices[pivot]].get_axis(axis);
    let mut j = start;
    while j < pivot
        invariant
            start <= i <= j <= pivot,
            pivot == end - 1,
            end <= n,
            indices@.len() == n,
            n == orig.len(),
            axis < D,
            range_in_bounds(points@.len() as int, indices@, start as int, end as int),
            indices@[pivot as int] == orig[pivot as int],
            pivot_val as int == key::<P, D>(points@, orig[pivot as int], axis as int),
            indices@.subrange(0, start as int) == orig.subrange(0, start as int),
            indices@.subrange(end as int, n as int) == orig.subrange(end as int, n as int),
            indices@.subrange(start as int, end as int).to_multiset() == orig.subrange(
                start as int,
                end as int,
            ).to_multiset(),
            forall|k: int|
                start <= k < i ==> #[trigger] key::<P, D>(points@, indices@[k], axis as int)
                    < pivot_val,
            forall|k: int|
                i <= k < j ==> #[trigger] key::<P, D>(points@, indices@[k], axis as int)
                    >= pivot_val,
        decreases pivot - j,
    {
        if points[indices[j]].get_axis(axis) < pivot_val {
            let ghost before = indices@;
            swap_entries(indices, i, j);
            proof {
                assert(indices@.subrange(start as int, end as int) =~= swapped(
                    before.subrange(start as int, end as int),
                    i - start,
                    j - start,
                ));
                lemma_swap_multiset(before.subrange(start as int, end as int), i - start, j - start);
                assert(indices@.subrange(0, start as int) =~= before.subrange(0, start as int));
                assert(indices@.subrange(end as int, n as int) =~= before.subrange(end as int, n as int));
            }
            i += 1;
        }
        j += 1;
    }
    let ghost before = indices@;
    swap_entries(indices, i, pivot);
    proof {
        assert(indices@.subrange(start as int, end as int) =~= swapped(
            before.subrange(start as int, end as int),
            i - start,
            pivot - start,
        ));
        lemma_swap_multiset(before.subrange(start as int, end as int), i - start, pivot - start);
        assert(indices@.subrange(0, start as int) =~= before.subrange(0, start as int));
        assert(indices@.subrange(end as int, n as int) =~= before.subrange(end as int, n as int));
        lemma_splice_multiset(indices@, orig, start as int, end as int);
    }
    i
}

/// Sum over pending ranges of twice their length plus one: it falls with every step.
pub open spec fn ranges_measure(stack: Seq<(usize, usize)>) -> nat
    decreases stack.len(),
{
    if stack.len() == 0 {
        0
    } else {
        ranges_measure(stack.drop_last()) + 2 * (stack.last().1 - stack.last().0) as nat + 1
    }
}

/// Positions `i` and `j` lie in one of the pending ranges.
pub open spec fn in_one_range(stack: Seq<(usize, usize)>, i: int, j: int) -> bool {
    exists|k: int| 0 <= k < stack.len() && #[trigger] stack[k].0 <= i && j < stack[k].1
}

/// Quick sort with a Lomuto partition whose pivot is the last entry of each range, driven by
/// an explicit stack of pending ranges.
#[verifier::rlimit(60)]
pub fn quick_sort<P: Point<D>, const D: usize>(points: &[P], indices: &mut Vec<usize>, axis: usize)
    requires
        axis < D,
        indices_in_bounds(points@.len() as int, old(indices)@),
    ensures
        (sorts_indices::<P, D>(points@, old(indices)@, final(indices)@, axis as int)),
{
    let ghost orig = indices@;
    let n = indices.len();
    let mut stack: Vec<(usize, usize)> = Vec::new();
    stack.push((0, n));
    assert forall|i: int, j: int| 0 <= i < j < n implies in_one_range(stack@, i, j) by {
        assert(stack@[0].0 <= i && j < stack@[0].1);
    }
    while stack.len() > 0
        invariant
            axis < D,
            indices@.len() == n,
            indices_in_bounds(points@.len() as int, indices@),
            indices@.to_multiset() == orig.to_multiset(),
            forall|k: int| 0 <= k < stack@.len() ==> #[trigger] stack@[k].0 <= stack@[k].1 <= n,
            forall|a: int, b: int|
                0 <= a < b < stack@.len() ==> #[trigger] stack@[a].1 <= #[trigger] stack@[b].0
                    || stack@[b].1 <= stack@[a].0,
            forall|i: int, j: int|
                0 <= i < j < n && !in_one_range(stack@, i, j) ==> #[trigger] key::<P, D>(
                    points@,
                    indices@[i],
                    axis as int,
                ) <= #[trigger] key::<P, D>(points@, indices@[j], axis as int),
        decreases ranges_measure(stack@),
    {
        let ghost st = stack@;
        let (start, end) = stack.pop().unwrap();
        proof {
            assert(stack@ =~= st.drop_last());
        }
        if start < end {
            let ghost v = indices@;
            let p = partition(points, indices, start, end, axis);
            proof {
                let nv = indices@;
                assert forall|k: int| 0 <= k < nv.len() implies #[trigger] nv[k] < points@.len() by {
                    if k < start {
                        assert(nv[k] == nv.subrange(0, start as int)[k]);
                        assert(v[k] == v.subrange(0, start as int)[k]);
                    } else if k >= end {
                        assert(nv[k] == nv.subrange(end as int, n as int)[k - end]);
                        assert(v[k] == v.subrange(end as int, n as int)[k - end]);
                    }
                }
            }
            stack.push((start, p));
            stack.push((p + 1, end));
            proof {
                let s0 = st.drop_last();
                assert(stack@ =~= s0.push((start, p)).push(((p + 1) as usize, end)));
                assert forall|a: int, b: int|
                    0 <= a < b < stack@.len() implies #[trigger] stack@[a].1 <= #[trigger] stack@[b].0
                    || stack@[b].1 <= stack@[a].0 by {
                    if b >= s0.len() && a < s0.len() {
                        assert(st[a] == s0[a]);
                        assert(st[st.len() - 1] == (start, end));
                    }
                    if b < s0.len() {
                        assert(st[a] == s0[a] && st[b] == s0[b]);
                    }
                }
                assert forall|i: int, j: int|
                    0 <= i < j < n && !in_one_range(stack@, i, j) implies #[trigger] key::<P, D>(
                        points@,
                        indices@[i],
                        axis as int,
                    ) <= #[trigger] key::<P, D>(points@, indices@[j], axis as int) by {
                    let nv = indices@;
                    assert(nv =~= nv.subrange(0, start as int) + nv.subrange(start as int, end as int)
                        + nv.subrange(end as int, n as int));
                    let in_i = start <= i < end;
                    let in_j = start <= j < end;
                    if in_i && in_j {
                        if i < p {
                            assert(key::<P, D>(points@, nv[i], axis as int) < key::<P, D>(points@, nv[p as int], axis as int));
                            if j > p {
                                assert(key::<P, D>(points@, nv[j], axis as int) >= key::<P, D>(points@, nv[p as int], axis as int));
                            } else if j < p {
                                assert(stack@[s0.len() as int].0 <= i && j < stack@[s0.len() as int].1);
                            }
                        } else if i == p {
                            assert(key::<P, D>(points@, nv[j], axis as int) >= key::<P, D>(points@, nv[p as int], axis as int));
                        } else {
                            assert(stack@[s0.len() as int + 1].0 <= i && j < stack@[s0.len() as int + 1].1);
                        }
                    } else {
                        assert(st[st.len() - 1] == (start, end));
                        // the other pending ranges are carried over unchanged
                        assert(forall|k: int| 0 <= k < s0.len() ==> stack@[k] == st[k]);
                        if !in_i && !in_j {
                            assert(nv[i] == nv.subrange(0, start as int)[i] || nv[i] == nv.subrange(end as int, n as int)[i - end]);
                            assert(!in_one_range(st, i, j)) by {
                                if in_one_range(st, i, j) {
                                    let k = choose|k: int| 0 <= k < st.len() && #[trigger] st[k].0 <= i && j < st[k].1;
                                    assert(k < s0.len());
                                    assert(stack@[k].0 <= i && j < stack@[k].1);
                                }
                            }
                            if i < start {
                                assert(nv[i] == nv.subrange(0, start as int)[i]);
                                assert(v[i] == v.subrange(0, start as int)[i]);
                            } else {
                                assert(nv[i] == nv.subrange(end as int, n as int)[i - end]);
                                assert(v[i] == v.subrange(end as int, n as int)[i - end]);
                            }
                            if j < start {
                                assert(nv[j] == nv.subrange(0, start as int)[j]);
                                assert(v[j] == v.subrange(0, start as int)[j]);
                            } else {
                                assert(nv[j] == nv.subrange(end as int, n as int)[j - end]);
                                assert(v[j] == v.subrange(end as int, n as int)[j - end]);
                            }
                        } else if in_i {
                            // j lies after the range
                            let k2 = lemma_multiset_member(
                                nv.subrange(start as int, end as int),
                                v.subrange(start as int, end as int),
                                i - start,
                            );
                            let i2 = start + k2;
                            assert(v[i2] == nv[i]);
                            assert(nv[j] == nv.subrange(end as int, n as int)[j - end]);
                            assert(v[j] == v.subrange(end as int, n as int)[j - end]);
                            assert(!in_one_range(st, i2, j)) by {
                                if in_one_range(st, i2, j) {
                                    let k = choose|k: int| 0 <= k < st.len() && #[trigger] st[k].0 <= i2 && j < st[k].1;
                                    if k < s0.len() {
                                        assert(st[k].1 <= st[st.len() - 1].0 || st[st.len() - 1].1 <= st[k].0);
                                    }
                                }
                            }
                        } else {
                            // i lies before the range
                            let k2 = lemma_multiset_member(
                                nv.subrange(start as int, end as int),
                                v.subrange(start as int, end as int),
                                j - start,
                            );
                            let j2 = start + k2;
                            assert(v[j2] == nv[j]);
                            assert(nv[i] == nv.subrange(0, start as int)[i]);
                            assert(v[i] == v.subrange(0, start as int)[i]);
                            assert(!in_one_range(st, i, j2)) by {
                                if in_one_range(st, i, j2) {
                                    let k = choose|k: int| 0 <= k < st.len() && #[trigger] st[k].0 <= i && j2 < st[k].1;
                                    if k < s0.len() {
                                        assert(st[k].1 <= st[st.len() - 1].0 || st[st.len() - 1].1 <= st[k].0);
                                    }
                                }
                            }
                        }
                    }
                }
                let s1 = s0.push((start, p));
                assert(stack@.drop_last() =~= s1);
                assert(s1.drop_last() =~= s0);
                assert(ranges_measure(stack@) == ranges_measure(s1) + 2 * (end - p - 1) + 1);
                assert(ranges_measure(s1) == ranges_measure(s0) + 2 * (p - start) + 1);
                assert(ranges_measure(st) == ranges_measure(s0) + 2 * (end - start) + 1);
            }
        } else {
            proof {
                let s0 = st.drop_last();
                assert(ranges_measure(st) == ranges_measure(s0) + 2 * (end - start) + 1);
                assert forall|i: int, j: int|
                    0 <= i < j < n && !in_one_range(stack@, i, j) implies #[trigger] key::<P, D>(
                        points@,
                        indices@[i],
                        axis as int,
                    ) <= #[trigger] key::<P, D>(points@, indices@[j], axis as int) by {
                    if in_one_range(st, i, j) {
                        let k = choose|k: int| 0 <= k < st.len() && #[trigger] st[k].0 <= i && j < st[k].1;
                        assert(k < s0.len());
                        assert(stack@[k].0 <= i && j < stack@[k].1);
                    }
                }
            }
        }
    }
    proof {
        assert forall|i: int, j: int| 0 <= i < j < n implies !in_one_range(stack@, i, j) by {}
    }
}

/// Shell sort with the gap sequence `len / 2, len / 4, ..., 1`; the last pass is an insertion
/// sort, which leaves the indices ordered.
pub fn shell_sort<P: Point<D>, const D: usize>(points: &[P], indices: &mut Vec<usize>, axis: usize)
    requires
        axis < D,
        indices_in_bounds(points@.len() as int, old(indices)@),
    ensures
        (sorts_indices::<P, D>(points@, old(indices)@, final(indices)@, axis as int)),
{
    let ghost orig = indices@;
    let len = indices.len();
    let mut gap: usize = len / 2;
    while gap > 0
        invariant
            axis < D,
            indices@.len() == len,
            indices_in_bounds(points@.len() as int, indices@),
            indices@.to_multiset() == orig.to_multiset(),
            gap <= len,
            gap == 0 ==> sorted_on_axis::<P, D>(points@, indices@, axis as int),
        decreases gap,
    {
        let mut i: usize = gap;
        while i < len
            invariant
                axis < D,
                0 < gap <= i <= len,
                indices@.len() == len,
                indices_in_bounds(points@.len() as int, indices@),
                indices@.to_multiset() == orig.to_multiset(),
                gap == 1 ==> sorted_on_axis::<P, D>(points@, indices@.subrange(0, i as int), axis as int),
            decreases len - i,
        {
            let temp_i = indices[i];
            let temp = points[temp_i].get_axis(axis);
            let mut j: usize = i;
            proof {
                if gap == 1 {
                    assert forall|a: int, b: int| 0 <= a < b < i implies #[trigger] key::<P, D>(
                        points@,
                        indices@[a],
                        axis as int,
                    ) <= #[trigger] key::<P, D>(points@, indices@[b], axis as int) by {
                        assert(indices@.subrange(0, i as int)[a] == indices@[a]);
                        assert(indices@.subrange(0, i as int)[b] == indices@[b]);
                    }
                }
            }
            while j >= gap && points[indices[j - gap]].get_axis(axis) > temp
                invariant
                    axis < D,
                    0 < gap,
                    j <= i < len,
                    indices@.len() == len,
                    indices_in_bounds(points@.len() as int, indices@),
                    indices@.to_multiset() == orig.to_multiset(),
                    indices@[j as int] == temp_i,
                    temp as int == key::<P, D>(points@, temp_i, axis as int),
                    gap == 1 ==> forall|a: int, b: int|
                        0 <= a < b <= i && a != j && b != j ==> #[trigger] key::<P, D>(
                            points@,
                            indices@[a],
                            axis as int,
                        ) <= #[trigger] key::<P, D>(points@, indices@[b], axis as int),
                    gap == 1 ==> forall|b: int|
                        j < b <= i ==> #[trigger] key::<P, D>(points@, indices@[b], axis as int)
                            > temp,
                decreases j,
            {
                let ghost before = indices@;
                swap_entries(indices, j, j - gap);
                j -= gap;
                proof {
                    if gap == 1 {
                        assert forall|a: int, b: int|
                            0 <= a < b <= i && a != j && b != j implies #[trigger] key::<P, D>(
                                points@,
                                indices@[a],
                                axis as int,
                            ) <= #[trigger] key::<P, D>(points@, indices@[b], axis as int) by {
                            if b == j + 1 {
                                if a < j {
                                    assert(key::<P, D>(points@, before[a], axis as int) <= key::<P, D>(
                                        points@,
                                        before[j as int],
                                        axis as int,
                                    ));
                                }
                            }
                        }
                    }
                }
            }
            assert(j < gap || key::<P, D>(points@, indices@[j - gap], axis as int) <= temp);
            indices.set(j, temp_i);
            proof {
                if gap == 1 {
                    assert(indices@.subrange(0, i + 1) =~= indices@.subrange(0, i + 1));
                    assert forall|a: int, b: int| 0 <= a < b < i + 1 implies #[trigger] key::<P, D>(
                        points@,
                        indices@.subrange(0, i + 1)[a],
                        axis as int,
                    ) <= #[trigger] key::<P, D>(points@, indices@.subrange(0, i + 1)[b], axis as int) by {
                        if a == j && j > 0 {
                            assert(key::<P, D>(points@, indices@[j - 1], axis as int) <= temp);
                            assert(key::<P, D>(points@, indices@[j - 1], axis as int) <= key::<P, D>(
                                points@,
                                indices@[b],
                                axis as int,
                            ));
                        }
                    }
                }
            }
            i += 1;
        }
        proof {
            if gap == 1 {
                assert(indices@.subrange(0, len as int) =~= indices@);
            }
        }
        gap /= 2;
    }
}

/// Entry `k` of `v` is not above its parent on `axis`.
pub open spec fn heap_link_ok<P: Point<D>, const D: usize>(points: Seq<P>, v: Seq<usize>, k: int, axis: int) -> bool {
    key::<P, D>(points, v[(k - 1) / 2], axis) >= key::<P, D>(points, v[k], axis)
}

/// The first `end` entries of `v` form a max-heap on `axis`.
pub open spec fn is_heap<P: Point<D>, const D: usize>(points: Seq<P>, v: Seq<usize>, end: int, axis: int) -> bool {
    forall|k: int| 0 < k < end ==> #[trigger] heap_link_ok::<P, D>(points, v, k, axis)
}

/// The root of a heap is its largest entry.
pub proof fn lemma_heap_root_max<P: Point<D>, const D: usize>(
    points: Seq<P>,
    v: Seq<usize>,
    end: int,
    axis: int,
    k: int,
)
    requires
        is_heap::<P, D>(points, v, end, axis),
        0 <= k < end,
    ensures
        key::<P, D>(points, v[0], axis) >= key::<P, D>(points, v[k], axis),
    decreases k,
{
    if k > 0 {
        assert(heap_link_ok::<P, D>(points, v, k, axis));
        lemma_heap_root_max::<P, D>(points, v, end, axis, (k - 1) / 2);
    }
}

/// Position `k` of an array that stores a binary heap lies in the subtree of position `r`.
pub open spec fn in_heap_subtree(k: int, r: int) -> bool
    decreases k,
{
    if k == r {
        true
    } else if k <= r || k <= 0 {
        false
    } else {
        in_heap_subtree((k - 1) / 2, r)
    }
}

/// A position in the subtree of `r` comes no earlier than `r`.
pub proof fn lemma_in_heap_subtree_ge(k: int, r: int)
    requires
        in_heap_subtree(k, r),
    ensures
        k >= r,
    decreases k,
{
    if k != r {
        lemma_in_heap_subtree_ge((k - 1) / 2, r);
    }
}

/// Every position lies in the subtree of the root.
pub proof fn lemma_in_heap_subtree_root(k: int)
    requires
        k >= 0,
    ensures
        in_heap_subtree(k, 0),
    decreases k,
{
    if k > 0 {
        lemma_in_heap_subtree_root((k - 1) / 2);
    }
}

/// Sifts the entry at `root` down the heap held in `arr[..end)`: when the two subtrees below
/// `root` are heaps, the whole subtree of `root` becomes one, and no entry outside that
/// subtree moves.
fn move_down<P: Point<D>, const D: usize>(
    points: &[P],
    arr: &mut Vec<usize>,
    root: usize,
    end: usize,
    axis: usize,
)
    requires
        root < end <= old(arr).len(),
        axis < D,
        indices_in_bounds(points@.len() as int, old(arr)@),
        forall|k: int|
            0 < k < end && in_heap_subtree(k, root as int) && k != root && (k - 1) / 2 != root
                ==> #[trigger] heap_link_ok::<P, D>(points@, old(arr)@, k, axis as int),
    ensures
        final(arr)@.len() == old(arr)@.len(),
        indices_in_bounds(points@.len() as int, final(arr)@),
        forall|k: int|
            0 < k < end && in_heap_subtree(k, root as int) && k != root ==> #[trigger] heap_link_ok::<
                P,
                D,
            >(points@, final(arr)@, k, axis as int),
        forall|k: int|
            0 <= k < final(arr)@.len() && !(k < end && in_heap_subtree(k, root as int))
                ==> #[trigger] final(arr)@[k] == old(arr)@[k],
        final(arr)@.subrange(0, end as int).to_multiset() == old(arr)@.subrange(0, end as int).to_multiset(),
        final(arr)@.to_multiset() == old(arr)@.to_multiset(),
{
    let ghost orig = arr@;
    let n = arr.len();
    let mut r = root;
    loop
        invariant
            root <= r < end <= n,
            in_heap_subtree(r as int, root as int),
            arr@.len() == n,
            n == orig.len(),
            axis < D,
            indices_in_bounds(points@.len() as int, arr@),
            forall|k: int|
                0 < k < end && in_heap_subtree(k, root as int) && k != root && (k - 1) / 2 != r
                    ==> #[trigger] heap_link_ok::<P, D>(points@, arr@, k, axis as int),
            r > root ==> forall|c: int|
                0 < c < end && (c - 1) / 2 == r ==> #[trigger] key::<P, D>(points@, arr@[c], axis as int) <= key::<P, D>(
                    points@,
                    arr@[(r - 1) / 2],
                    axis as int,
                ),
            forall|k: int|
                0 <= k < n && !(k < end && in_heap_subtree(k, root as int)) ==> #[trigger] arr@[k] == orig[k],
            arr@.subrange(0, end as int).to_multiset() == orig.subrange(0, end as int).to_multiset(),
        ensures
            arr@.len() == n,
            indices_in_bounds(points@.len() as int, arr@),
            forall|k: int|
                0 < k < end && in_heap_subtree(k, root as int) && k != root ==> #[trigger] heap_link_ok::<
                    P,
                    D,
                >(points@, arr@, k, axis as int),
            forall|k: int|
                0 <= k < n && !(k < end && in_heap_subtree(k, root as int)) ==> #[trigger] arr@[k] == orig[k],
            arr@.subrange(0, end as int).to_multiset() == orig.subrange(0, end as int).to_multiset(),
        decreases end - r,
    {
        if r >= end / 2 {
            proof {
                assert forall|k: int|
                    0 < k < end && in_heap_subtree(k, root as int) && k != root implies #[trigger] heap_link_ok::<
                        P,
                        D,
                    >(points@, arr@, k, axis as int) by {
                    if (k - 1) / 2 == r {
                        assert(false);
                    }
                }
            }
            break;
        }
        let left = 2 * r + 1;
        let right = left + 1;
        assert(in_heap_subtree(left as int, root as int));
        assert(right < end ==> in_heap_subtree(right as int, root as int));
        let left_value = points[arr[left]].get_axis(axis);
        let mut max = left;
        let mut max_value = left_value;
        if right < end {
            let right_value = points[arr[right]].get_axis(axis);
            if right_value > left_value {
                max = right;
                max_value = right_value;
            }
        }
        let root_value = points[arr[r]].get_axis(axis);
        if max_value > root_value {
            let ghost before = arr@;
            swap_entries(arr, r, max);
            proof {
                assert(arr@.subrange(0, end as int) =~= swapped(before.subrange(0, end as int), r as int, max as int));
                lemma_swap_multiset(before.subrange(0, end as int), r as int, max as int);
                assert forall|k: int|
                    0 < k < end && in_heap_subtree(k, root as int) && k != root && (k - 1) / 2 != max
                        implies #[trigger] heap_link_ok::<P, D>(points@, arr@, k, axis as int) by {
                    if (k - 1) / 2 == r {
                        assert(k == left || k == right);
                    } else if k == r {
                        assert(key::<P, D>(points@, before[max as int], axis as int) <= key::<P, D>(points@, before[(r - 1) / 2], axis as int));
                    } else {
                        assert(heap_link_ok::<P, D>(points@, before, k, axis as int));
                    }
                }
                assert forall|c: int| 0 < c < end && (c - 1) / 2 == max implies #[trigger] key::<P, D>(points@, arr@[c], axis as int)
                    <= key::<P, D>(points@, arr@[(max - 1) / 2], axis as int) by {
                    assert(in_heap_subtree(c, root as int));
                    assert(heap_link_ok::<P, D>(points@, before, c, axis as int));
                    assert((max - 1) / 2 == r);
                }
            }
            r = max;
        } else {
            proof {
                assert forall|k: int|
                    0 < k < end && in_heap_subtree(k, root as int) && k != root implies #[trigger] heap_link_ok::<
                        P,
                        D,
                    >(points@, arr@, k, axis as int) by {
                    if (k - 1) / 2 == r {
                        assert(k == left || k == right);
                    }
                }
            }
            break;
        }
    }
    proof {
        assert(arr@.subrange(end as int, n as int) =~= orig.subrange(end as int, n as int));
        assert(arr@.subrange(0, 0) =~= orig.subrange(0, 0));
        lemma_splice_multiset(arr@, orig, 0, end as int);
    }
}

/// Arranges `indices` into a max-heap on `axis`.
fn heapify<P: Point<D>, const D: usize>(points: &[P], indices: &mut Vec<usize>, axis: usize)
    requires
        old(indices).len() >= 2,
        axis < D,
        indices_in_bounds(points@.len() as int, old(indices)@),
    ensures
        final(indices)@.len() == old(indices)@.len(),
        indices_in_bounds(points@.len() as int, final(indices)@),
        is_heap::<P, D>(points@, final(indices)@, final(indices)@.len() as int, axis as int),
        final(indices)@.to_multiset() == old(indices)@.to_multiset(),
{
    let ghost orig = indices@;
    let n = indices.len();
    let last_parent = (n - 2) / 2;
    let mut i = last_parent + 1;
    while i > 0
        invariant
            i <= last_parent + 1,
            last_parent == (n - 2) / 2,
            n >= 2,
            indices@.len() == n,
            axis < D,
            indices_in_bounds(points@.len() as int, indices@),
            indices@.to_multiset() == orig.to_multiset(),
            forall|k: int|
                0 < k < n && (k - 1) / 2 >= i ==> #[trigger] heap_link_ok::<P, D>(points@, indices@, k, axis as int),
        decreases i,
    {
        i -= 1;
        let ghost before = indices@;
        proof {
            assert forall|k: int|
                0 < k < n && in_heap_subtree(k, i as int) && k != i && (k - 1) / 2 != i implies #[trigger] heap_link_ok::<
                    P,
                    D,
                >(points@, before, k, axis as int) by {
                lemma_in_heap_subtree_ge((k - 1) / 2, i as int);
            }
        }
        move_down(points, indices, i, n, axis);
        proof {
            assert forall|k: int| 0 < k < n && (k - 1) / 2 >= i implies #[trigger] heap_link_ok::<P, D>(
                points@,
                indices@,
                k,
                axis as int,
            ) by {
                if !in_heap_subtree(k, i as int) {
                    assert(!in_heap_subtree((k - 1) / 2, i as int));
                    assert(heap_link_ok::<P, D>(points@, before, k, axis as int));
                    assert(indices@[k] == before[k]);
                    assert(indices@[(k - 1) / 2] == before[(k - 1) / 2]);
                }
            }
        }
    }
}

/// Heap sort: builds a max-heap, then moves its root behind the shrinking heap.
pub fn heap_sort<P: Point<D>, const D: usize>(points: &[P], indices: &mut Vec<usize>, axis: usize)
    requires
        axis < D,
        indices_in_bounds(points@.len() as int, old(indices)@),
    ensures
        (sorts_indices::<P, D>(points@, old(indices)@, final(indices)@, axis as int)),
{
    let n = indices.len();
    if n <= 1 {
        return;
    }
    let ghost orig = indices@;
    heapify(points, indices, axis);
    let mut end = n;
    while end > 1
        invariant
            1 <= end <= n,
            indices@.len() == n,
            axis < D,
            indices_in_bounds(points@.len() as int, indices@),
            indices@.to_multiset() == orig.to_multiset(),
            is_heap::<P, D>(points@, indices@, end as int, axis as int),
            forall|a: int, b: int|
                end <= a < b < n ==> #[trigger] key::<P, D>(points@, indices@[a], axis as int) <= #[trigger] key::<P, D>(
                    points@,
                    indices@[b],
                    axis as int,
                ),
            forall|a: int, b: int|
                0 <= a < end <= b < n ==> #[trigger] key::<P, D>(points@, indices@[a], axis as int) <= #[trigger] key::<P, D>(
                    points@,
                    indices@[b],
                    axis as int,
                ),
        decreases end,
    {
        let ghost v0 = indices@;
        proof {
            assert forall|k: int| 0 <= k < end implies #[trigger] key::<P, D>(points@, v0[k], axis as int) <= key::<P, D>(points@, v0[0], axis as int) by {
                lemma_heap_root_max::<P, D>(points@, v0, end as int, axis as int, k);
            }
        }
        swap_entries(indices, 0, end - 1);
        let ghost v1 = indices@;
        end -= 1;
        proof {
            assert forall|k: int| 0 < k < end && (k - 1) / 2 > 0 implies #[trigger] heap_link_ok::<P, D>(
                points@,
                v1,
                k,
                axis as int,
            ) by {
                assert(heap_link_ok::<P, D>(points@, v0, k, axis as int));
            }
        }
        proof {
            assert forall|k: int| 0 < k < end && in_heap_subtree(k, 0) && k != 0 && (k - 1) / 2 != 0 implies #[trigger] heap_link_ok::<P, D>(
                points@,
                v1,
                k,
                axis as int,
            ) by {
                assert(heap_link_ok::<P, D>(points@, v0, k, axis as int));
            }
        }
        move_down(points, indices, 0, end, axis);
        proof {
            let v2 = indices@;
            assert forall|k: int| 0 < k < end implies #[trigger] heap_link_ok::<P, D>(points@, v2, k, axis as int) by {
                lemma_in_heap_subtree_root(k);
            }
            assert forall|k: int| end <= k < n implies #[trigger] v2[k] == v1[k] by {}
            assert forall|a: int, b: int|
                0 <= a < end <= b < n implies #[trigger] key::<P, D>(points@, v2[a], axis as int) <= #[trigger] key::<P, D>(
                    points@,
                    v2[b],
                    axis as int,
                ) by {
                let a2 = lemma_multiset_member(v2.subrange(0, end as int), v1.subrange(0, end as int), a);
                assert(v1[a2] == v2[a]);
                assert(v2[b] == v1[b]);
                if a2 == 0 {
                    assert(v1[0] == v0[end as int]);
                } else {
                    assert(v1[a2] == v0[a2]);
                }
                if b == end {
                    assert(v1[b] == v0[0]);
                } else {
                    assert(v1[b] == v0[b]);
                }
            }
            assert forall|a: int, b: int|
                end <= a < b < n implies #[trigger] key::<P, D>(points@, v2[a], axis as int) <= #[trigger] key::<P, D>(
                    points@,
                    v2[b],
                    axis as int,
                ) by {
                assert(v2[a] == v1[a] && v2[b] == v1[b]);
                assert(v1[b] == v0[b]);
                if a == end {
                    assert(v1[a] == v0[0]);
                } else {
                    assert(v1[a] == v0[a]);
                }
            }
        }
    }
    proof {
        assert forall|a: int, b: int| 0 <= a < b < n implies #[trigger] key::<P, D>(points@, indices@[a], axis as int)
            <= #[trigger] key::<P, D>(points@, indices@[b], axis as int) by {
            if a == 0 {
                if b >= 1 {
                }
            }
        }
    }
}

/// Mapping two sequences with one multiset gives sequences with one multiset.
pub proof fn lemma_map_multiset<A, B>(a: Seq<A>, b: Seq<A>, f: spec_fn(A) -> B)
    requires
        a.to_multiset() == b.to_multiset(),
    ensures
        a.map_values(f).to_multiset() == b.map_values(f).to_multiset(),
    decreases a.len(),
{
    if a.len() == 0 {
        assert(b.to_multiset().len() == 0);
        assert(b.len() == 0);
        assert(a.map_values(f) =~= b.map_values(f));
    } else {
        let x = a.last();
        let k = lemma_multiset_member(a, b, a.len() - 1);
        let a1 = a.drop_last();
        let b1 = b.remove(k);
        assert(a.remove(a.len() - 1) =~= a1);
        assert(a1.to_multiset() == b1.to_multiset());
        lemma_map_multiset(a1, b1, f);
        assert(a.map_values(f) =~= a1.map_values(f).push(f(x)));
        assert(b1.map_values(f) =~= b.map_values(f).remove(k));
        assert(b.map_values(f)[k] == f(x));
        assert(b.map_values(f).to_multiset().count(f(x)) > 0) by {
            assert(b.map_values(f).contains(f(x)));
        }
        assert(b.map_values(f).to_multiset() =~= b.map_values(f).to_multiset().remove(f(x)).insert(f(x)));
    }
}

/// Two results of sorting one list of indices on `axis` place points with the same coordinate
/// at every position: every strategy agrees with a stable sort, up to the order of ties.
pub proof fn lemma_sorted_orders_agree<P: Point<D>, const D: usize>(
    points: Seq<P>,
    before: Seq<usize>,
    a: Seq<usize>,
    b: Seq<usize>,
    axis: int,
)
    requires
        sorts_indices::<P, D>(points, before, a, axis),
        sorts_indices::<P, D>(points, before, b, axis),
    ensures
        a.len() == b.len(),
        forall|i: int| 0 <= i < a.len() ==> #[trigger] key::<P, D>(points, a[i], axis) == key::<P, D>(points, b[i], axis),
{
    let f = |x: usize| key::<P, D>(points, x, axis);
    let ka = a.map_values(f);
    let kb = b.map_values(f);
    lemma_map_multiset(a, b, f);
    let leq = |x: int, y: int| x <= y;
    assert(total_ordering(leq));
    assert(sorted_by(ka, leq)) by {
        assert forall|i: int, j: int| 0 <= i < j < ka.len() implies #[trigger] leq(ka[i], ka[j]) by {
            assert(key::<P, D>(points, a[i], axis) <= key::<P, D>(points, a[j], axis));
        }
    }
    assert(sorted_by(kb, leq)) by {
        assert forall|i: int, j: int| 0 <= i < j < kb.len() implies #[trigger] leq(kb[i], kb[j]) by {
            assert(key::<P, D>(points, b[i], axis) <= key::<P, D>(points, b[j], axis));
        }
    }
    lemma_sorted_unique(ka, kb, leq);
    assert(a.len() == ka.len() && b.len() == kb.len());
    assert forall|i: int| 0 <= i < a.len() implies #[trigger] key::<P, D>(points, a[i], axis) == key::<P, D>(points, b[i], axis) by {
        assert(ka[i] == kb[i]);
    }
}

/// Sorts `indices` on `axis` with the chosen strategy.
pub fn sort_using_strategy<P: Point<D>, const D: usize>(
    points: &[P],
    indices: &mut Vec<usize>,
    axis: usize,
    strategy: &SortingStrategy,
)
    requires
        axis < D,
        indices_in_bounds(points@.len() as int, old(indices)@),
    ensures
        (sorts_indices::<P, D>(points@, old(indices)@, final(indices)@, axis as int)),
        (*strategy == SortingStrategy::StableSort ==> keeps_ties_in_order::<P, D>(
            points@,
            old(indices)@,
            final(indices)@,
            axis as int,
        )),
{
    match strategy {
        SortingStrategy::StableSort => stable_sort(points, indices, axis),
        SortingStrategy::UnstableSort => unstable_sort(points, indices, axis),
        SortingStrategy::ShellSort => shell_sort(points, indices, axis),
        SortingStrategy::HeapSort => heap_sort(points, indices, axis),
        SortingStrategy::QuickSort => quick_sort(points, indices, axis),
    }
}

/// A way of ordering point indices along one axis. The tree builder calls it on each range it
/// splits; the library implements it for `SortingStrategy` and for presorted orders, and a
/// caller may supply its own.
pub trait PointsSorter<const D: usize, P: Point<D>> {
    /// The sorter can reorder indices into `points`.
    spec fn sorter_ready(&self, points: Seq<P>) -> bool;

    /// The sorter leaves every range it is given ordered on the requested axis.
    spec fn sorts(&self, points: Seq<P>) -> bool;

    /// Reorders the distinct indices in `indices`; when the sorter `sorts`, by the coordinate
    /// of their points on `axis`.
    fn sort_points(&mut self, points: &[P], indices: &mut Vec<usize>, axis: usize)
        requires
            old(self).sorter_ready(points@),
            axis < D,
            indices_in_bounds(points@.len() as int, old(indices)@),
            old(indices)@.no_duplicates(),
        ensures
            final(self).sorter_ready(points@),
            final(self).sorts(points@) == old(self).sorts(points@),
            permutes_indices(points@.len() as int, old(indices)@, final(indices)@),
            (old(self).sorts(points@) ==> sorted_on_axis::<P, D>(points@, final(indices)@, axis as int)),
    ;
}

impl<const D: usize, P: Point<D>> PointsSorter<D, P> for SortingStrategy {
    open spec fn sorter_ready(&self, points: Seq<P>) -> bool {
        true
    }

    open spec fn sorts(&self, points: Seq<P>) -> bool {
        true
    }

    fn sort_points(&mut self, points: &[P], indices: &mut Vec<usize>, axis: usize) {
        sort_using_strategy(points, indices, axis, self);
    }
}

pub proof fn lemma_push_contains<T>(s: Seq<T>, x: T, y: T)
    ensures
        s.push(x).contains(y) <==> (s.contains(y) || y == x),
{
    if s.contains(y) {
        let k = choose|k: int| 0 <= k < s.len() && s[k] == y;
        assert(s.push(x)[k] == y);
    }
    if y == x {
        assert(s.push(x)[s.len() as int] == y);
    }
    if s.push(x).contains(y) && y != x {
        let k = choose|k: int| 0 <= k < s.len() + 1 && s.push(x)[k] == y;
        assert(s[k] == y);
    }
}

/// Two sequences without duplicates that hold the same elements have one multiset.
pub proof fn lemma_same_elements_multiset<T>(a: Seq<T>, b: Seq<T>)
    requires
        a.no_duplicates(),
        b.no_duplicates(),
        forall|x: T| a.contains(x) <==> b.contains(x),
    ensures
        a.to_multiset() == b.to_multiset(),
{
    a.lemma_multiset_has_no_duplicates();
    b.lemma_multiset_has_no_duplicates();
    assert forall|x: T| a.to_multiset().count(x) == b.to_multiset().count(x) by {
        if a.contains(x) {
            assert(b.contains(x));
        } else {
            assert(!b.contains(x));
        }
    }
    assert(a.to_multiset() =~= b.to_multiset());
}

/// `n` distinct indices below `n` take every value below `n`.
pub proof fn lemma_no_dup_covers(s: Seq<usize>, n: int, x: int)
    requires
        s.no_duplicates(),
        s.len() == n,
        indices_in_bounds(n, s),
        0 <= x < n,
    ensures
        s.contains(x as usize),
{
    let si = s.map_values(|v: usize| v as int);
    assert forall|a: int, b: int| 0 <= a < si.len() && 0 <= b < si.len() && a != b implies si[a] != si[b] by {
        assert(s[a] != s[b]);
    }
    si.unique_seq_to_set();
    lemma_int_range(0, n);
    assert(si.to_set().subset_of(set_int_range(0, n))) by {
        assert forall|v: int| si.to_set().contains(v) implies set_int_range(0, n).contains(v) by {
            let a = choose|a: int| 0 <= a < si.len() && si[a] == v;
            assert(s[a] < n);
        }
    }
    lemma_subset_equality(si.to_set(), set_int_range(0, n));
    assert(set_int_range(0, n).contains(x));
    assert(si.to_set().contains(x));
    let j = choose|j: int| 0 <= j < si.len() && si[j] == x;
    assert(s[j] == x as usize);
}

/// For each axis, an order of all point indices, and a scratch mark per point, all cleared.
pub open spec fn presorted_ok<P: Point<D>, const D: usize>(
    orders: Seq<Vec<usize>>,
    marks: Seq<bool>,
    points: Seq<P>,
) -> bool {
    &&& orders.len() == D
    &&& marks.len() == points.len()
    &&& forall|x: int| 0 <= x < marks.len() ==> !#[trigger] marks[x]
    &&& forall|a: int|
        0 <= a < D ==> {
            let o = (#[trigger] orders[a])@;
            &&& o.len() == points.len()
            &&& o.no_duplicates()
            &&& indices_in_bounds(points.len() as int, o)
        }
}

/// The order kept for each axis is sorted on that axis.
pub open spec fn orders_sorted<P: Point<D>, const D: usize>(orders: Seq<Vec<usize>>, points: Seq<P>) -> bool {
    forall|a: int| 0 <= a < D ==> sorted_on_axis::<P, D>(points, (#[trigger] orders[a])@, a)
}

/// Orders ranges of indices by filtering orders of all indices that were sorted once per
/// axis, instead of sorting each range again.
pub struct PresortedOrder {
    pub orders: Vec<Vec<usize>>,
    pub marks: Vec<bool>,
}

impl<const D: usize, P: Point<D>> PointsSorter<D, P> for PresortedOrder {
    open spec fn sorter_ready(&self, points: Seq<P>) -> bool {
        presorted_ok::<P, D>(self.orders@, self.marks@, points)
    }

    open spec fn sorts(&self, points: Seq<P>) -> bool {
        orders_sorted::<P, D>(self.orders@, points)
    }

    fn sort_points(&mut self, points: &[P], indices: &mut Vec<usize>, axis: usize) {
        let n = self.marks.len();
        let m = indices.len();
        let mut i: usize = 0;
        while i < m
            invariant
                presorted_ok::<P, D>(self.orders@, old(self).marks@, points@),
                self.orders == old(self).orders,
                indices@ == old(indices)@,
                self.marks@.len() == n,
                n == points@.len(),
                i <= m == indices@.len(),
                indices_in_bounds(n as int, indices@),
                forall|x: int| 0 <= x < n ==> #[trigger] self.marks@[x] == indices@.subrange(0, i as int).contains(x as usize),
            decreases m - i,
        {
            proof {
                assert(indices@.subrange(0, i + 1) =~= indices@.subrange(0, i as int).push(indices@[i as int]));
            }
            let ghost before = self.marks@;
            self.marks.set(indices[i], true);
            proof {
                assert forall|x: int| 0 <= x < n implies #[trigger] self.marks@[x] == indices@.subrange(0, i + 1).contains(x as usize) by {
                    lemma_push_contains(indices@.subrange(0, i as int), indices@[i as int], x as usize);
                }
            }
            i += 1;
        }
        proof {
            assert(indices@.subrange(0, m as int) =~= indices@);
        }
        let ghost marked = self.marks@;
        assert(forall|x: int| 0 <= x < n ==> #[trigger] marked[x] == indices@.contains(x as usize));
        let mut out: Vec<usize> = Vec::new();
        let mut q: usize = 0;
        while q < n
            invariant
                presorted_ok::<P, D>(self.orders@, old(self).marks@, points@),
                axis < D,
                self.orders == old(self).orders,
                indices@ == old(indices)@,
                m == indices@.len(),
                indices_in_bounds(n as int, indices@),
                forall|x: int| 0 <= x < n ==> #[trigger] marked[x] == indices@.contains(x as usize),
                self.marks@ == marked,
                marked.len() == n,
                n == points@.len(),
                q <= n,
                out@.no_duplicates(),
                indices_in_bounds(n as int, out@),
                forall|x: usize| x < n ==> (#[trigger] out@.contains(x) <==> (marked[x as int]
                    && self.orders@[axis as int]@.subrange(0, q as int).contains(x))),
                forall|x: usize| x >= n ==> !#[trigger] out@.contains(x),
                orders_sorted::<P, D>(self.orders@, points@) ==> sorted_on_axis::<P, D>(points@, out@, axis as int),
                orders_sorted::<P, D>(self.orders@, points@) ==> forall|k: int, p: int|
                    0 <= k < out@.len() && q <= p < n ==> #[trigger] key::<P, D>(points@, out@[k], axis as int)
                        <= #[trigger] key::<P, D>(points@, self.orders@[axis as int]@[p], axis as int),
            decreases n - q,
        {
            let ghost o = self.orders@[axis as int]@;
            let x = self.orders[axis][q];
            proof {
                assert(o.subrange(0, q + 1) =~= o.subrange(0, q as int).push(x));
                assert(!o.subrange(0, q as int).contains(x)) by {
                    if o.subrange(0, q as int).contains(x) {
                        let p = choose|p: int| 0 <= p < q && o.subrange(0, q as int)[p] == x;
                        assert(o[p] == o[q as int]);
                    }
                }
            }
            proof {
                assert forall|y: usize| y < n && !self.marks@[x as int] implies (#[trigger] out@.contains(y) <==> (marked[y as int]
                    && o.subrange(0, q + 1).contains(y))) by {
                    lemma_push_contains(o.subrange(0, q as int), x, y);
                }
            }
            if self.marks[x] {
                let ghost before = out@;
                out.push(x);
                proof {
                    assert forall|y: usize| y < n implies (#[trigger] out@.contains(y) <==> (marked[y as int]
                        && o.subrange(0, q + 1).contains(y))) by {
                        lemma_push_contains(o.subrange(0, q as int), x, y);
                        lemma_push_contains(before, x, y);
                        if y != x && out@.contains(y) {
                            let k = choose|k: int| 0 <= k < out@.len() && out@[k] == y;
                            assert(before[k] == y);
                        }
                        if y != x && before.contains(y) {
                            let k = choose|k: int| 0 <= k < before.len() && before[k] == y;
                            assert(out@[k] == y);
                        }
                    }
                    assert forall|y: usize| y >= n implies !#[trigger] out@.contains(y) by {
                        if out@.contains(y) {
                            let k = choose|k: int| 0 <= k < out@.len() && out@[k] == y;
                            assert(before[k] == y);
                        }
                    }
                    assert(!before.contains(x));
                }
            }
            q += 1;
        }
        proof {
            assert(self.orders@[axis as int]@.subrange(0, n as int) =~= self.orders@[axis as int]@);
        }
        proof {
            let o = self.orders@[axis as int]@;
            assert(indices@.subrange(0, m as int) =~= indices@);
            assert forall|x: usize| out@.contains(x) <==> indices@.contains(x) by {
                if indices@.contains(x) {
                    let k = choose|k: int| 0 <= k < m && indices@[k] == x;
                    assert(x < n);
                    lemma_no_dup_covers(o, n as int, x as int);
                }
                if out@.contains(x) && x < n {
                    assert(marked[x as int]);
                }
            }
            lemma_same_elements_multiset(out@, indices@);
        }
        let mut i: usize = 0;
        while i < m
            invariant
                presorted_ok::<P, D>(self.orders@, old(self).marks@, points@),
                self.marks@.len() == n,
                n == points@.len(),
                i <= m == indices@.len(),
                indices_in_bounds(n as int, indices@),
                indices@ == old(indices)@,
                out@.to_multiset() == indices@.to_multiset(),
                indices_in_bounds(n as int, out@),
                orders_sorted::<P, D>(self.orders@, points@) ==> sorted_on_axis::<P, D>(points@, out@, axis as int),
                self.orders == old(self).orders,
                forall|x: int| 0 <= x < n && #[trigger] self.marks@[x] ==> indices@.subrange(i as int, m as int).contains(x as usize),
            decreases m - i,
        {
            let ghost before = self.marks@;
            self.marks.set(indices[i], false);
            proof {
                assert forall|x: int| 0 <= x < n && #[trigger] self.marks@[x] implies indices@.subrange(i + 1, m as int).contains(x as usize) by {
                    assert(before[x]);
                    let k = choose|k: int| 0 <= k < m - i && indices@.subrange(i as int, m as int)[k] == x as usize;
                    assert(k != 0);
                    assert(indices@.subrange(i + 1, m as int)[k - 1] == x as usize);
                }
            }
            i += 1;
        }
        *indices = out;
    }
}

/// Sorts all point indices once per axis with `sorter`, ready to order any range of them.
pub fn presort<P: Point<D>, const D: usize, S: PointsSorter<D, P>>(points: &[P], sorter: &mut S) -> (r:
    PresortedOrder)
    requires
        old(sorter).sorter_ready(points@),
    ensures
        final(sorter).sorter_ready(points@),
        final(sorter).sorts(points@) == old(sorter).sorts(points@),
        (presorted_ok::<P, D>(r.orders@, r.marks@, points@)),
        (old(sorter).sorts(points@) ==> orders_sorted::<P, D>(r.orders@, points@)),
{
    let ghost sorting = sorter.sorts(points@);
    let n = points.len();
    let mut orders: Vec<Vec<usize>> = Vec::new();
    let mut axis: usize = 0;
    while axis < D
        invariant
            axis <= D,
            n == points@.len(),
            sorter.sorter_ready(points@),
            sorter.sorts(points@) == sorting,
            sorting == old(sorter).sorts(points@),
            orders@.len() == axis,
            forall|a: int|
                0 <= a < axis ==> {
                    let o = (#[trigger] orders@[a])@;
                    &&& o.len() == points@.len()
                    &&& o.no_duplicates()
                    &&& indices_in_bounds(points@.len() as int, o)
                    &&& (sorting ==> sorted_on_axis::<P, D>(points@, o, a))
                },
        decreases D - axis,
    {
        let mut ids: Vec<usize> = Vec::new();
        let mut i: usize = 0;
        while i < n
            invariant
                i <= n,
                ids@.len() == i,
                forall|k: int| 0 <= k < i ==> #[trigger] ids@[k] == k,
            decreases n - i,
        {
            ids.push(i);
            i += 1;
        }
        let ghost unsorted = ids@;
        sorter.sort_points(points, &mut ids, axis);
        proof {
            assert(ids@.len() == unsorted.len()) by {
                assert(ids@.to_multiset().len() == unsorted.to_multiset().len());
            }
            unsorted.lemma_multiset_has_no_duplicates();
            ids@.lemma_multiset_has_no_duplicates_conv();
        }
        orders.push(ids);
        axis += 1;
    }
    let mut marks: Vec<bool> = Vec::new();
    let mut i: usize = 0;
    while i < n
        invariant
            i <= n,
            marks@.len() == i,
            forall|k: int| 0 <= k < i ==> !#[trigger] marks@[k],
        decreases n - i,
    {
        marks.push(false);
        i += 1;
    }
    PresortedOrder { orders, marks }
}

} // verus!
