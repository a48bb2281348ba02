//! A k-d tree over a fixed slice of points, built once and queried by radius.
use vstd::prelude::*;
use vstd::seq_lib::*;
use vstd::multiset::*;
use vstd::set_lib::*;
use crate::point::{Point, point_within, within, dist_squared, square, lemma_axis_bounds_distance};
use crate::utils::{SortingStrategy, PointsSorter, PresortedOrder, presort, key, indices_in_bounds, sorted_on_axis, lemma_splice_multiset, lemma_multiset_member, lemma_same_elements_multiset};

verus! {

broadcast use group_to_multiset_ensures, group_multiset_axioms;

/// A node of the tree: the point it stands for, its parent and its two children.
#[derive(Debug, Clone, Copy)]
pub struct KdTreeNode {
    pub parent: usize,
    pub index: usize,
    pub children: [Option<usize>; 2],
}

/// The child of node `i` on side `c` (0: low side, 1: high side).
pub open spec fn child(t: Seq<KdTreeNode>, i: int, c: int) -> Option<usize> {
    t[i].children@[c]
}

/// Node `k` is the child of node `i` on side `c`.
pub open spec fn is_child(t: Seq<KdTreeNode>, i: int, c: int, k: int) -> bool {
    child(t, i, c) is Some && child(t, i, c)->0 as int == k
}

/// The parent and child links of `t` form a tree rooted at node 0 whose children come after
/// their parent.
pub open spec fn links_ok(t: Seq<KdTreeNode>) -> bool {
    &&& forall|i: int, c: int|
        0 <= i < t.len() && 0 <= c < 2 && (#[trigger] child(t, i, c)) is Some ==> i < child(
            t,
            i,
            c,
        )->0 < t.len() && t[child(t, i, c)->0 as int].parent == i
    &&& forall|i: int|
        0 <= i < t.len() && (#[trigger] t[i].children@[0]) is Some && t[i].children@[1] is Some
            ==> t[i].children@[0] != t[i].children@[1]
    &&& forall|k: int|
        0 < k < t.len() ==> (#[trigger] t[k].parent) < k && (is_child(t, t[k].parent as int, 0, k)
            || is_child(t, t[k].parent as int, 1, k))
}

/// `t` holds exactly one node for each of `n` points: the structural invariant of a tree.
pub open spec fn tree_shape_ok(t: Seq<KdTreeNode>, n: int) -> bool {
    &&& t.len() == n
    &&& links_ok(t)
    &&& forall|i: int| 0 <= i < t.len() ==> (#[trigger] t[i].index) < n
    &&& forall|i: int, j: int|
        0 <= i < t.len() && 0 <= j < t.len() && i != j ==> (#[trigger] t[i].index) != (
        #[trigger] t[j].index)
}

/// Depth of node `k`: the number of parent links up to the root.
pub open spec fn depth(t: Seq<KdTreeNode>, k: int) -> nat
    decreases k,
{
    if k <= 0 || k >= t.len() || t[k].parent >= k {
        0
    } else {
        depth(t, t[k].parent as int) + 1
    }
}

/// Node `j` lies in the subtree rooted at node `a`.
pub open spec fn is_desc(t: Seq<KdTreeNode>, j: int, a: int) -> bool
    decreases j,
{
    if j == a {
        true
    } else if j <= 0 || j >= t.len() || t[j].parent >= j {
        false
    } else {
        is_desc(t, t[j].parent as int, a)
    }
}

/// Node `j` lies in the subtree on side `c` of node `i`.
pub open spec fn in_side(t: Seq<KdTreeNode>, j: int, i: int, c: int) -> bool {
    child(t, i, c) is Some && is_desc(t, j, child(t, i, c)->0 as int)
}

/// The axis on which node `i` splits its subtree.
pub open spec fn split_axis<const D: usize>(t: Seq<KdTreeNode>, i: int) -> int {
    depth(t, i) as int % D as int
}

/// The point `x` lies on side `c` of the point `pivot` along `axis`.
pub open spec fn on_side<P: Point<D>, const D: usize>(
    points: Seq<P>,
    c: int,
    x: usize,
    pivot: usize,
    axis: int,
) -> bool {
    if c == 0 {
        key::<P, D>(points, x, axis) <= key::<P, D>(points, pivot, axis)
    } else {
        key::<P, D>(points, x, axis) >= key::<P, D>(points, pivot, axis)
    }
}

/// Every point in the subtree on side `c` of a node lies on side `c` of that node's point
/// along the node's split axis.
pub open spec fn kd_ordered<P: Point<D>, const D: usize>(t: Seq<KdTreeNode>, points: Seq<P>) -> bool {
    forall|i: int, j: int, c: int|
        0 <= i < t.len() && 0 <= j < t.len() && 0 <= c < 2 && #[trigger] in_side(t, j, i, c)
            ==> on_side::<P, D>(points, c, t[j].index, t[i].index, split_axis::<D>(t, i))
}

/// `t` is a k-d tree over `points`.
pub open spec fn kd_tree_ok<P: Point<D>, const D: usize>(t: Seq<KdTreeNode>, points: Seq<P>) -> bool {
    tree_shape_ok(t, points.len() as int) && kd_ordered::<P, D>(t, points)
}

/// The number of points that a node splitting `s` points passes to side `c`: the lower half
/// to side 0, the rest but the node's own point to side 1.
pub open spec fn side_share(s: int, c: int) -> int {
    if c == 0 {
        s / 2
    } else {
        s - s / 2 - 1
    }
}

/// `sz` gives the number of points each node splits: the root splits all `n` points, each
/// child receives its side's share, and a side has a child exactly when its share is not
/// empty. This fixes the shape of the tree: every split is at the median of its range.
pub open spec fn median_split_sizes(t: Seq<KdTreeNode>, n: int, sz: Seq<int>) -> bool {
    &&& sz.len() == t.len()
    &&& t.len() > 0 ==> sz[0] == n
    &&& forall|i: int, c: int|
        0 <= i < t.len() && 0 <= c < 2 ==> ((#[trigger] child(t, i, c)) is Some <==> side_share(
            sz[i],
            c,
        ) > 0) && (child(t, i, c) is Some ==> sz[child(t, i, c)->0 as int] == side_share(sz[i], c))
}

/// The tree over `n` points is balanced: each node splits its points at their median.
pub open spec fn is_median_split(t: Seq<KdTreeNode>, n: int) -> bool {
    exists|sz: Seq<int>| median_split_sizes(t, n, sz)
}

/// Depth and descent depend only on the parent links of the nodes up to `j`.
pub proof fn lemma_parent_frame(t1: Seq<KdTreeNode>, t2: Seq<KdTreeNode>, j: int)
    requires
        0 <= j < t1.len(),
        j < t2.len(),
        forall|k: int| 0 <= k <= j ==> #[trigger] t1[k].parent == t2[k].parent,
    ensures
        depth(t1, j) == depth(t2, j),
        forall|a: int| is_desc(t1, j, a) == is_desc(t2, j, a),
    decreases j,
{
    assert(t1[j].parent == t2[j].parent);
    if j > 0 && t1[j].parent < j {
        lemma_parent_frame(t1, t2, t1[j].parent as int);
    }
    assert forall|a: int| is_desc(t1, j, a) == is_desc(t2, j, a) by {
        if j != a && j > 0 && t1[j].parent < j {
            let p = t1[j].parent as int;
            lemma_parent_frame(t1, t2, p);
            assert(is_desc(t1, p, a) == is_desc(t2, p, a));
            assert(is_desc(t1, j, a) == is_desc(t1, p, a));
            assert(is_desc(t2, j, a) == is_desc(t2, p, a));
        }
    }
}

/// The depth of a node is at most its position.
pub proof fn lemma_depth_bound(t: Seq<KdTreeNode>, k: int)
    requires
        0 <= k < t.len(),
    ensures
        depth(t, k) <= k,
    decreases k,
{
    if k > 0 && t[k].parent < k {
        lemma_depth_bound(t, t[k].parent as int);
    }
}

/// Two sequences with one multiset agree on having no duplicates.
pub proof fn lemma_multiset_no_duplicates<T>(a: Seq<T>, b: Seq<T>)
    requires
        a.to_multiset() == b.to_multiset(),
        a.no_duplicates(),
    ensures
        b.no_duplicates(),
{
    a.lemma_multiset_has_no_duplicates();
    b.lemma_multiset_has_no_duplicates_conv();
}

/// The points of a subtree come from the range of the subtree's root.
proof fn lemma_desc_ranges(t: Seq<KdTreeNode>, ranges: Seq<Seq<usize>>, j: int, k: int)
    requires
        links_ok(t),
        ranges.len() == t.len(),
        forall|i: int, c: int|
            0 <= i < t.len() && 0 <= c < 2 && (#[trigger] child(t, i, c)) is Some ==> forall|x: usize|
                #[trigger] ranges[child(t, i, c)->0 as int].contains(x) ==> ranges[i].contains(x),
        0 <= j < t.len(),
        0 <= k < t.len(),
        is_desc(t, j, k),
    ensures
        forall|x: usize| #[trigger] ranges[j].contains(x) ==> ranges[k].contains(x),
    decreases j,
{
    if j != k {
        let p = t[j].parent as int;
        assert(p < j);
        lemma_desc_ranges(t, ranges, p, k);
        assert(0 < j < t.len());
        if is_child(t, p, 0, j) {
            assert forall|x: usize| #[trigger] ranges[j].contains(x) implies ranges[k].contains(x) by {
                assert(ranges[child(t, p, 0)->0 as int].contains(x));
                assert(ranges[p].contains(x));
            }
        } else {
            assert(is_child(t, p, 1, j));
            assert forall|x: usize| #[trigger] ranges[j].contains(x) implies ranges[k].contains(x) by {
                assert(ranges[child(t, p, 1)->0 as int].contains(x));
                assert(ranges[p].contains(x));
            }
        }
    }
}

/// Descent is transitive.
pub proof fn lemma_desc_trans(t: Seq<KdTreeNode>, a: int, b: int, c: int)
    requires
        is_desc(t, a, b),
        is_desc(t, b, c),
    ensures
        is_desc(t, a, c),
    decreases a,
{
    if a != b {
        lemma_desc_trans(t, t[a].parent as int, b, c);
    }
}

/// A descendant never comes before its ancestor.
pub proof fn lemma_desc_ge(t: Seq<KdTreeNode>, a: int, b: int)
    requires
        is_desc(t, a, b),
    ensures
        a >= b,
    decreases a,
{
    if a != b {
        lemma_desc_ge(t, t[a].parent as int, b);
    }
}

/// A proper descendant of `k` lies in the subtree of one of `k`'s children.
pub proof fn lemma_desc_side(t: Seq<KdTreeNode>, j: int, k: int) -> (c: int)
    requires
        links_ok(t),
        0 <= k < t.len(),
        is_desc(t, j, k),
        j != k,
    ensures
        0 <= c < 2,
        in_side(t, j, k, c),
    decreases j,
{
    let p = t[j].parent as int;
    if p == k {
        if is_child(t, k, 0, j) {
            0
        } else {
            1
        }
    } else {
        let c = lemma_desc_side(t, p, k);
        let ch = child(t, k, c)->0 as int;
        assert(is_desc(t, j, ch));
        c
    }
}

/// Every point index below `n` belongs to some node.
pub proof fn lemma_every_point_has_node(t: Seq<KdTreeNode>, n: int, x: int) -> (j: int)
    requires
        tree_shape_ok(t, n),
        0 <= x < n,
    ensures
        0 <= j < n,
        t[j].index == x,
{
    let s = Seq::new(n as nat, |j: int| t[j].index as int);
    assert forall|a: int, b: int| 0 <= a < s.len() && 0 <= b < s.len() && a != b implies s[a] != s[b] by {
        assert(t[a].index != t[b].index);
    }
    s.unique_seq_to_set();
    lemma_int_range(0, n);
    assert(s.to_set().subset_of(set_int_range(0, n))) by {
        assert forall|v: int| s.to_set().contains(v) implies set_int_range(0, n).contains(v) by {
            let a = choose|a: int| 0 <= a < s.len() && s[a] == v;
            assert(t[a].index < n);
        }
    }
    lemma_subset_equality(s.to_set(), set_int_range(0, n));
    assert(set_int_range(0, n).contains(x));
    assert(s.to_set().contains(x));
    let j = choose|j: int| 0 <= j < s.len() && s[j] == x;
    j
}

/// `s` lists, once each, the indices of the points within `radius` of `q`.
pub open spec fn is_match_list<P: Point<D>, const D: usize>(
    points: Seq<P>,
    q: P,
    radius: int,
    s: Seq<usize>,
) -> bool {
    &&& s.no_duplicates()
    &&& forall|x: usize|
        #![trigger s.contains(x)]
        #![trigger within::<P, D>(points[x as int], q, radius)]
        s.contains(x) <==> (x < points.len() && within::<P, D>(points[x as int], q, radius))
}

/// The point of node `j` lies within `radius` of `q`.
pub open spec fn node_matches<P: Point<D>, const D: usize>(
    t: Seq<KdTreeNode>,
    points: Seq<P>,
    q: P,
    radius: int,
    j: int,
) -> bool {
    within::<P, D>(points[t[j].index as int], q, radius)
}

/// Node `j` lies in the subtree of a node on the stack.
pub open spec fn pending(t: Seq<KdTreeNode>, stack: Seq<(usize, usize)>, j: int) -> bool {
    exists|a: int| 0 <= a < stack.len() && #[trigger] is_desc(t, j, stack[a].1 as int)
}

/// The stack entries that visiting node `k` at depth `d` pushes: the child on the query's side
/// of the splitting plane, then the other child when the plane lies within `radius`.
pub open spec fn expand<P: Point<D>, const D: usize>(
    t: Seq<KdTreeNode>,
    points: Seq<P>,
    q: P,
    radius: int,
    d: usize,
    k: int,
) -> Seq<(usize, usize)> {
    let ax = d as int % D as int;
    let delta = key::<P, D>(points, t[k].index, ax) - q.coord(ax);
    let first: int = if delta >= 0 {
        0
    } else {
        1
    };
    let last: int = 1 - first;
    let near = if child(t, k, first) is Some {
        seq![((d + 1) as usize, child(t, k, first)->0)]
    } else {
        Seq::empty()
    };
    if (if delta >= 0 {
        delta
    } else {
        -delta
    }) <= radius && child(t, k, last) is Some {
        near.push(((d + 1) as usize, child(t, k, last)->0))
    } else {
        near
    }
}

/// The state of a radius query between two steps: the stack holds disjoint subtrees with their
/// depths, `seen` holds the visited nodes, `found` the visited nodes that match, and every
/// matching node is either found or still pending.
pub open spec fn walk_inv<P: Point<D>, const D: usize>(
    t: Seq<KdTreeNode>,
    points: Seq<P>,
    q: P,
    radius: int,
    stack: Seq<(usize, usize)>,
    seen: Set<int>,
    found: Seq<int>,
) -> bool {
    &&& forall|a: int|
        0 <= a < stack.len() ==> (#[trigger] stack[a]).1 < t.len() && stack[a].0 == depth(
            t,
            stack[a].1 as int,
        )
    &&& forall|a: int, b: int|
        0 <= a < stack.len() && 0 <= b < stack.len() && a != b ==> !is_desc(
            t,
            (#[trigger] stack[a]).1 as int,
            (#[trigger] stack[b]).1 as int,
        )
    &&& seen.finite()
    &&& forall|j: int| #[trigger] seen.contains(j) ==> 0 <= j < t.len()
    &&& forall|j: int, a: int|
        #[trigger] seen.contains(j) && 0 <= a < stack.len() ==> !is_desc(t, j, (#[trigger] stack[a]).1 as int)
    &&& found.no_duplicates()
    &&& forall|k: int|
        0 <= k < found.len() ==> seen.contains(#[trigger] found[k]) && node_matches::<P, D>(
            t,
            points,
            q,
            radius,
            found[k],
        )
    &&& forall|j: int|
        0 <= j < t.len() && #[trigger] node_matches::<P, D>(t, points, q, radius, j) && !pending(
            t,
            stack,
            j,
        ) ==> found.contains(j)
}

/// The point indices of the found nodes.
pub open spec fn found_indices(t: Seq<KdTreeNode>, found: Seq<int>) -> Seq<usize> {
    found.map_values(|j: int| t[j].index)
}

/// Pruning is sound: when the splitting plane of node `i` lies farther than `radius` from `q`,
/// on the side away from `c`, no point in the subtree on side `c` lies within `radius` of `q`.
/// Skipping that subtree therefore loses no match.
pub proof fn lemma_pruned_side_has_no_match<P: Point<D>, const D: usize>(
    t: Seq<KdTreeNode>,
    points: Seq<P>,
    q: P,
    radius: int,
    i: int,
    c: int,
)
    requires
        D > 0,
        kd_tree_ok::<P, D>(t, points),
        0 <= i < t.len(),
        0 <= c < 2,
        c == 1 ==> key::<P, D>(points, t[i].index, split_axis::<D>(t, i)) - q.coord(split_axis::<D>(t, i)) > radius,
        c == 0 ==> q.coord(split_axis::<D>(t, i)) - key::<P, D>(points, t[i].index, split_axis::<D>(t, i)) > radius,
    ensures
        forall|j: int|
            0 <= j < t.len() && #[trigger] in_side(t, j, i, c) ==> !within::<P, D>(
                points[t[j].index as int],
                q,
                radius,
            ),
{
    let ax = split_axis::<D>(t, i);
    assert forall|j: int| 0 <= j < t.len() && #[trigger] in_side(t, j, i, c) implies !within::<P, D>(
        points[t[j].index as int],
        q,
        radius,
    ) by {
        if radius >= 0 {
            let p = points[t[j].index as int];
            let diff = p.coord(ax) - q.coord(ax);
            assert(on_side::<P, D>(points, c, t[j].index, t[i].index, ax));
            assert(diff > radius || -diff > radius);
            assert(square(diff) > radius * radius) by (nonlinear_arith)
                requires
                    diff > radius || -diff > radius,
                    radius >= 0,
            ;
            lemma_axis_bounds_distance::<P, D>(p, q, D as int, ax);
        }
    }
}

/// One step of a radius query keeps the traversal invariant: popping node `k` at depth `d`,
/// recording it when it matches, and pushing `expand` of it.
pub proof fn lemma_walk_step<P: Point<D>, const D: usize>(
    t: Seq<KdTreeNode>,
    points: Seq<P>,
    q: P,
    radius: int,
    stack: Seq<(usize, usize)>,
    seen: Set<int>,
    found: Seq<int>,
)
    requires
        D > 0,
        kd_tree_ok::<P, D>(t, points),
        walk_inv::<P, D>(t, points, q, radius, stack, seen, found),
        stack.len() > 0,
        t.len() <= usize::MAX,
    ensures
        ({
            let (d, k) = stack.last();
            let found2 = if node_matches::<P, D>(t, points, q, radius, k as int) {
                found.push(k as int)
            } else {
                found
            };
            &&& !seen.contains(k as int)
            &&& seen.insert(k as int).len() <= t.len()
            &&& walk_inv::<P, D>(
                t,
                points,
                q,
                radius,
                stack.drop_last() + expand::<P, D>(t, points, q, radius, d, k as int),
                seen.insert(k as int),
                found2,
            )
        }),
{
    let (d, k) = stack.last();
    let ki = k as int;
    let last = stack.len() - 1;
    let s0 = stack.drop_last();
    let ex = expand::<P, D>(t, points, q, radius, d, ki);
    let s2 = s0 + ex;
    let seen2 = seen.insert(ki);
    let found2 = if node_matches::<P, D>(t, points, q, radius, ki) {
        found.push(ki)
    } else {
        found
    };
    assert(stack[last] == (d, k));
    assert(is_desc(t, ki, ki));
    assert(!seen.contains(ki));
    // the pushed entries are children of k, one per side
    assert forall|e: int| 0 <= e < ex.len() implies is_child(t, ki, 0, (#[trigger] ex[e]).1 as int)
        || is_child(t, ki, 1, ex[e].1 as int) by {}
    lemma_depth_bound(t, ki);
    assert forall|e: int| 0 <= e < ex.len() implies (#[trigger] ex[e]).0 == d + 1 by {}
    assert(ex.len() == 2 ==> ex[0].1 != ex[1].1) by {
        if ex.len() == 2 {
            assert(t[ki].children@[0] != t[ki].children@[1]);
        }
    }
    lemma_depth_bound(t, ki);
    assert forall|e: int| 0 <= e < ex.len() implies {
        let ch = (#[trigger] ex[e]).1 as int;
        &&& ki < ch < t.len()
        &&& t[ch].parent == ki
        &&& depth(t, ch) == d + 1
        &&& is_desc(t, ch, ki)
    } by {
        let ch = ex[e].1 as int;
        if is_child(t, ki, 0, ch) {
            assert(child(t, ki, 0) is Some);
        } else {
            assert(child(t, ki, 1) is Some);
        }
        assert(is_desc(t, ki, ki));
    }
    // seen nodes and the children's subtrees are apart
    assert forall|a: int| 0 <= a < s2.len() implies (#[trigger] s2[a]).1 < t.len() && s2[a].0 == depth(
        t,
        s2[a].1 as int,
    ) by {
        if a < s0.len() {
            assert(s2[a] == stack[a]);
        } else {
            assert(s2[a] == ex[a - s0.len()]);
        }
    }
    assert forall|a: int, b: int|
        0 <= a < s2.len() && 0 <= b < s2.len() && a != b implies !is_desc(
        t,
        (#[trigger] s2[a]).1 as int,
        (#[trigger] s2[b]).1 as int,
    ) by {
        let x = s2[a].1 as int;
        let y = s2[b].1 as int;
        if a < s0.len() && b < s0.len() {
            assert(s2[a] == stack[a] && s2[b] == stack[b]);
        } else if a >= s0.len() && b >= s0.len() {
            assert(s2[a] == ex[a - s0.len()] && s2[b] == ex[b - s0.len()]);
            if is_desc(t, x, y) {
                assert(x != y);
                assert(is_desc(t, t[x].parent as int, y));
                lemma_desc_ge(t, ki, y);
            }
        } else if a < s0.len() {
            assert(s2[a] == stack[a]);
            assert(s2[b] == ex[b - s0.len()]);
            if is_desc(t, x, y) {
                lemma_desc_trans(t, x, y, ki);
                assert(!is_desc(t, stack[a].1 as int, stack[last].1 as int));
            }
        } else {
            assert(s2[a] == ex[a - s0.len()]);
            assert(s2[b] == stack[b]);
            if is_desc(t, x, y) {
                if x == y {
                    assert(is_desc(t, y, ki));
                    assert(!is_desc(t, stack[b].1 as int, stack[last].1 as int));
                } else {
                    assert(is_desc(t, ki, y));
                    assert(!is_desc(t, stack[last].1 as int, stack[b].1 as int));
                }
            }
        }
    }
    lemma_int_range(0, t.len() as int);
    assert(seen2.subset_of(set_int_range(0, t.len() as int)));
    lemma_len_subset(seen2, set_int_range(0, t.len() as int));
    assert forall|j: int, a: int|
        #[trigger] seen2.contains(j) && 0 <= a < s2.len() implies !is_desc(t, j, (#[trigger] s2[a]).1 as int) by {
        let y = s2[a].1 as int;
        if a < s0.len() {
            assert(s2[a] == stack[a]);
            if j == ki {
                assert(!is_desc(t, stack[last].1 as int, stack[a].1 as int));
            }
        } else {
            assert(s2[a] == ex[a - s0.len()]);
            if is_desc(t, j, y) {
                lemma_desc_trans(t, j, y, ki);
                if j == ki {
                    lemma_desc_ge(t, ki, y);
                } else {
                    assert(!is_desc(t, j, stack[last].1 as int));
                }
            }
        }
    }
    assert forall|k2: int| 0 <= k2 < found2.len() implies seen2.contains(#[trigger] found2[k2])
        && node_matches::<P, D>(t, points, q, radius, found2[k2]) by {
        if k2 < found.len() {
            assert(found2[k2] == found[k2]);
        }
    }
    assert(found2.no_duplicates()) by {
        if node_matches::<P, D>(t, points, q, radius, ki) {
            assert forall|a: int| 0 <= a < found.len() implies found[a] != ki by {
                assert(seen.contains(found[a]));
            }
        }
    }
    assert forall|j: int|
        0 <= j < t.len() && #[trigger] node_matches::<P, D>(t, points, q, radius, j) && !pending(
            t,
            s2,
            j,
        ) implies found2.contains(j) by {
        if pending(t, stack, j) {
            let a = choose|a: int| 0 <= a < stack.len() && #[trigger] is_desc(t, j, stack[a].1 as int);
            if a < last {
                assert(s2[a] == stack[a]);
                assert(is_desc(t, j, s2[a].1 as int));
            } else if j == ki {
                assert(found2[found2.len() - 1] == ki);
            } else {
                let c = lemma_desc_side(t, j, ki);
                let ch = child(t, ki, c)->0;
                let ax = d as int % D as int;
                assert(split_axis::<D>(t, ki) == ax);
                let delta = key::<P, D>(points, t[ki].index, ax) - q.coord(ax);
                let first: int = if delta >= 0 { 0 } else { 1 };
                if c == first {
                    assert(ex[0] == ((d + 1) as usize, ch));
                    assert(s2[s0.len() as int] == ex[0]);
                    assert(is_desc(t, j, s2[s0.len() as int].1 as int));
                } else if (if delta >= 0 { delta } else { -delta }) <= radius {
                    assert(ex[ex.len() - 1] == ((d + 1) as usize, ch));
                    assert(s2[s0.len() + ex.len() - 1] == ex[ex.len() - 1]);
                    assert(is_desc(t, j, s2[s0.len() + ex.len() - 1].1 as int));
                } else {
                    lemma_pruned_side_has_no_match::<P, D>(t, points, q, radius, ki, c);
                }
            }
        } else {
            assert(found.contains(j));
            if node_matches::<P, D>(t, points, q, radius, ki) {
                let a = choose|a: int| 0 <= a < found.len() && found[a] == j;
                assert(found2[a] == j);
            }
        }
    }
}

/// When no subtree is pending, the found nodes name exactly the matching points.
pub proof fn lemma_walk_done<P: Point<D>, const D: usize>(
    t: Seq<KdTreeNode>,
    points: Seq<P>,
    q: P,
    radius: int,
    seen: Set<int>,
    found: Seq<int>,
)
    requires
        kd_tree_ok::<P, D>(t, points),
        walk_inv::<P, D>(t, points, q, radius, Seq::empty(), seen, found),
    ensures
        is_match_list::<P, D>(points, q, radius, found_indices(t, found)),
{
    let out = found_indices(t, found);
    let n = points.len() as int;
    assert forall|a: int, b: int| 0 <= a < out.len() && 0 <= b < out.len() && a != b implies out[a] != out[b] by {
        assert(seen.contains(found[a]) && seen.contains(found[b]));
        assert(found[a] != found[b]);
    }
    assert forall|x: usize| out.contains(x) <==> (x < points.len() && within::<P, D>(points[x as int], q, radius)) by {
        if out.contains(x) {
            let a = choose|a: int| 0 <= a < out.len() && out[a] == x;
            assert(seen.contains(found[a]));
            assert(node_matches::<P, D>(t, points, q, radius, found[a]));
        }
        if x < points.len() && within::<P, D>(points[x as int], q, radius) {
            let j = lemma_every_point_has_node(t, n, x as int);
            assert(node_matches::<P, D>(t, points, q, radius, j));
            assert(!pending(t, Seq::empty(), j));
            let a = choose|a: int| 0 <= a < found.len() && found[a] == j;
            assert(out[a] == x);
        }
    }
}

/// Every node lies in the subtree of the root.
pub proof fn lemma_desc_root(t: Seq<KdTreeNode>, j: int)
    requires
        links_ok(t),
        0 <= j < t.len(),
    ensures
        is_desc(t, j, 0),
    decreases j,
{
    if j > 0 {
        lemma_desc_root(t, t[j].parent as int);
    }
}

/// Two lists of the points within `radius` of `q` hold the same indices, each once: whatever
/// the form of the query that produced them, and however often it was repeated.
pub proof fn lemma_match_lists_agree<P: Point<D>, const D: usize>(
    points: Seq<P>,
    q: P,
    radius: int,
    a: Seq<usize>,
    b: Seq<usize>,
)
    requires
        is_match_list::<P, D>(points, q, radius, a),
        is_match_list::<P, D>(points, q, radius, b),
    ensures
        a.to_multiset() == b.to_multiset(),
        a.to_set() == b.to_set(),
{
    assert forall|x: usize| a.contains(x) <==> b.contains(x) by {
        if a.contains(x) {
            assert(x < points.len() && within::<P, D>(points[x as int], q, radius));
        }
        if b.contains(x) {
            assert(x < points.len() && within::<P, D>(points[x as int], q, radius));
        }
    }
    lemma_same_elements_multiset(a, b);
    assert(a.to_set() =~= b.to_set());
}

/// The walk's state just after the root was pushed.
proof fn lemma_walk_start<P: Point<D>, const D: usize>(
    t: Seq<KdTreeNode>,
    points: Seq<P>,
    q: P,
    radius: int,
    stack: Seq<(usize, usize)>,
)
    requires
        kd_tree_ok::<P, D>(t, points),
        t.len() > 0,
        stack == seq![(0usize, 0usize)],
    ensures
        walk_inv::<P, D>(t, points, q, radius, stack, Set::empty(), Seq::empty()),
{
    assert forall|j: int| 0 <= j < t.len() implies pending(t, stack, j) by {
        lemma_desc_root(t, j);
        assert(is_desc(t, j, stack[0].1 as int));
    }
}

/// Some node stands for the point with index `x`.
pub open spec fn point_has_node(t: Seq<KdTreeNode>, x: int) -> bool {
    exists|j: int| 0 <= j < t.len() && #[trigger] t[j].index == x
}

/// The structure of a tree over `n` points: node 0 is the root and no node lists it as a
/// child; every other node is listed as a child by its parent alone, on one side only; every
/// node is reached from the root; and every point has a node.
pub proof fn lemma_tree_structure(t: Seq<KdTreeNode>, n: int)
    requires
        tree_shape_ok(t, n),
    ensures
        forall|i: int, c: int| 0 <= i < n && 0 <= c < 2 ==> !#[trigger] is_child(t, i, c, 0),
        forall|i: int, c: int, k: int|
            0 <= i < n && 0 <= c < 2 && 0 < k < n && #[trigger] is_child(t, i, c, k) ==> i == t[k].parent,
        forall|k: int|
            0 < k < n ==> #[trigger] is_child(t, t[k].parent as int, 0, k) != is_child(
                t,
                t[k].parent as int,
                1,
                k,
            ),
        forall|j: int| 0 <= j < n ==> #[trigger] is_desc(t, j, 0),
        forall|x: int| 0 <= x < n ==> #[trigger] point_has_node(t, x),
{
    assert forall|i: int, c: int| 0 <= i < n && 0 <= c < 2 implies !#[trigger] is_child(t, i, c, 0) by {
        if is_child(t, i, c, 0) {
            assert(child(t, i, c) is Some);
        }
    }
    assert forall|i: int, c: int, k: int|
        0 <= i < n && 0 <= c < 2 && 0 < k < n && #[trigger] is_child(t, i, c, k) implies i == t[k].parent by {
        assert(child(t, i, c) is Some);
    }
    assert forall|k: int| 0 < k < n implies #[trigger] is_child(t, t[k].parent as int, 0, k) != is_child(
        t,
        t[k].parent as int,
        1,
        k,
    ) by {
        let p = t[k].parent as int;
        assert(t[p].children@[0] == child(t, p, 0));
        assert(t[p].children@[1] == child(t, p, 1));
    }
    assert forall|j: int| 0 <= j < n implies #[trigger] is_desc(t, j, 0) by {
        lemma_desc_root(t, j);
    }
    assert forall|x: int| 0 <= x < n implies #[trigger] point_has_node(t, x) by {
        let j = lemma_every_point_has_node(t, n, x);
        assert(t[j].index == x);
    }
}

/// A pending split of the builder: the range `[start, end)` of the index array, the depth of
/// the node it makes, and the slot `children[left_right]` of node `parent` it attaches to.
struct Job {
    start: usize,
    end: usize,
    left_right: usize,
    depth: usize,
    parent: usize,
}

spec fn slot_pending(jobs: Seq<Job>, i: int, c: int) -> bool {
    exists|a: int| 0 <= a < jobs.len() && (#[trigger] jobs[a]).parent == i && jobs[a].left_right == c
}

spec fn jobs_total(jobs: Seq<Job>) -> int
    decreases jobs.len(),
{
    if jobs.len() == 0 {
        0
    } else {
        jobs_total(jobs.drop_last()) + (jobs.last().end - jobs.last().start)
    }
}

proof fn lemma_jobs_total_push(jobs: Seq<Job>, j: Job)
    ensures
        jobs_total(jobs.push(j)) == jobs_total(jobs) + (j.end - j.start),
{
    assert(jobs.push(j).drop_last() =~= jobs);
}

proof fn lemma_jobs_total_nonneg(jobs: Seq<Job>)
    requires
        forall|a: int| 0 <= a < jobs.len() ==> #[trigger] jobs[a].start < jobs[a].end,
    ensures
        jobs_total(jobs) >= 0,
    decreases jobs.len(),
{
    if jobs.len() > 0 {
        assert(forall|a: int| 0 <= a < jobs.drop_last().len() ==> jobs.drop_last()[a] == jobs[a]);
        lemma_jobs_total_nonneg(jobs.drop_last());
    }
}

/// Sorts the range `[start, end)` of `ids` on `axis`, leaving the rest in place.
fn sort_range<P: Point<D>, const D: usize, S: PointsSorter<D, P>>(
    points: &[P],
    ids: &mut Vec<usize>,
    start: usize,
    end: usize,
    axis: usize,
    sorter: &mut S,
)
    requires
        start <= end <= old(ids).len(),
        axis < D,
        indices_in_bounds(points@.len() as int, old(ids)@),
        old(ids)@.no_duplicates(),
        old(sorter).sorter_ready(points@),
    ensures
        final(sorter).sorter_ready(points@),
        final(sorter).sorts(points@) == old(sorter).sorts(points@),
        final(ids)@.len() == old(ids)@.len(),
        forall|q: int|
            0 <= q < old(ids)@.len() && !(start <= q < end) ==> #[trigger] final(ids)@[q] == old(
                ids,
            )@[q],
        final(ids)@.subrange(start as int, end as int).to_multiset() == old(ids)@.subrange(
            start as int,
            end as int,
        ).to_multiset(),
        (old(sorter).sorts(points@) ==> sorted_on_axis::<P, D>(
            points@,
            final(ids)@.subrange(start as int, end as int),
            axis as int,
        )),
        final(ids)@.to_multiset() == old(ids)@.to_multiset(),
        indices_in_bounds(points@.len() as int, final(ids)@),
{
    let ghost orig = ids@;
    let mut sub: Vec<usize> = Vec::new();
    let mut q = start;
    while q < end
        invariant
            start <= q <= end <= ids@.len(),
            ids@ == orig,
            sub@ == ids@.subrange(start as int, q as int),
        decreases end - q,
    {
        sub.push(ids[q]);
        q += 1;
    }
    assert(indices_in_bounds(points@.len() as int, sub@));
    assert(sub@.no_duplicates());
    let ghost unsorted = sub@;
    sorter.sort_points(points, &mut sub, axis);
    assert(sub@.len() == unsorted.len()) by {
        assert(sub@.to_multiset().len() == unsorted.to_multiset().len());
    }
    let mut q = start;
    while q < end
        invariant
            start <= q <= end <= ids@.len(),
            ids@.len() == orig.len(),
            sub@.len() == end - start,
            indices_in_bounds(points@.len() as int, sub@),
            forall|k: int| 0 <= k < ids@.len() && !(start <= k < q) ==> #[trigger] ids@[k] == orig[k],
            forall|k: int| start <= k < q ==> #[trigger] ids@[k] == sub@[k - start],
        decreases end - q,
    {
        ids.set(q, sub[q - start]);
        q += 1;
    }
    proof {
        assert(ids@.subrange(start as int, end as int) =~= sub@);
        assert(ids@.subrange(0, start as int) =~= orig.subrange(0, start as int));
        assert(ids@.subrange(end as int, ids@.len() as int) =~= orig.subrange(end as int, orig.len() as int));
        lemma_splice_multiset(ids@, orig, start as int, end as int);
        assert forall|k: int| 0 <= k < ids@.len() implies #[trigger] ids@[k] < points@.len() by {
            if start <= k < end {
                assert(sub@[k - start] < points@.len());
            }
        }
    }
}

/// A k-d tree of points of dimension `D` that does not borrow the points: every query is
/// handed the slice the tree was built from.
pub struct KdTreeNoBorrow<const D: usize, P: Point<D>> {
    pub tree: Vec<KdTreeNode>,
    pub __marker: std::marker::PhantomData<P>,
}

impl<const D: usize, P: Point<D>> KdTreeNoBorrow<D, P> {
    /// The tree is a k-d tree over `points`.
    pub open spec fn wf(&self, points: Seq<P>) -> bool {
        kd_tree_ok::<P, D>(self.tree@, points)
    }

    /// Builds the tree with the default strategy.
    pub fn from_points(points: &[P]) -> (r: Self)
        requires
            D > 0,
        ensures
            r.wf(points@),
            is_median_split(r.tree@, points@.len() as int),
    {
        Self::from_points_with_strategy(points, &SortingStrategy::default())
    }

    /// Builds the tree from orders of all points presorted once per axis with `strategy`.
    pub fn from_points_presort_with_strategy(points: &[P], strategy: &SortingStrategy) -> (r: Self)
        requires
            D > 0,
        ensures
            r.wf(points@),
            is_median_split(r.tree@, points@.len() as int),
    {
        Self::from_points_presort_with_points_sorter(points, *strategy)
    }

    /// Builds the tree from orders of all points presorted once per axis with `points_sorter`:
    /// each range is then ordered by filtering the order of its axis down to its members.
    pub fn from_points_presort_with_points_sorter<S: PointsSorter<D, P>>(points: &[P], points_sorter: S) -> (r: Self)
        requires
            D > 0,
            points_sorter.sorter_ready(points@),
        ensures
            tree_shape_ok(r.tree@, points@.len() as int),
            is_median_split(r.tree@, points@.len() as int),
            points_sorter.sorts(points@) ==> r.wf(points@),
    {
        let mut points_sorter = points_sorter;
        let presorted: PresortedOrder = presort(points, &mut points_sorter);
        Self::from_points_with_points_sorter(points, presorted)
    }

    /// Builds the tree, ordering each range with `strategy` along the axis of its depth.
    pub fn from_points_with_strategy(points: &[P], strategy: &SortingStrategy) -> (r: Self)
        requires
            D > 0,
        ensures
            r.wf(points@),
            is_median_split(r.tree@, points@.len() as int),
    {
        let mut sorter = *strategy;
        Self::from_points_with_points_sorter(points, sorter)
    }

    /// Builds the tree, ordering each range with `points_sorter` along the axis of its depth.
    #[verifier::rlimit(80)]
    pub fn from_points_with_points_sorter<S: PointsSorter<D, P>>(points: &[P], points_sorter: S) -> (r: Self)
        requires
            D > 0,
            points_sorter.sorter_ready(points@),
        ensures
            tree_shape_ok(r.tree@, points@.len() as int),
            is_median_split(r.tree@, points@.len() as int),
            points_sorter.sorts(points@) ==> r.wf(points@),
    {
        let ghost sorting = points_sorter.sorts(points@);
        let mut points_sorter = points_sorter;
        let n = points.len();
        let mut tree: Vec<KdTreeNode> = Vec::new();
        if n == 0 {
            proof {
                assert(median_split_sizes(tree@, 0, Seq::empty()));
            }
            return KdTreeNoBorrow { tree, __marker: std::marker::PhantomData };
        }
        let mut ids: Vec<usize> = Vec::new();
        let mut i: usize = 0;
        while i < n
            invariant
                i <= n,
                ids@.len() == i,
                forall|k: int| 0 <= k < i ==> #[trigger] ids@[k] == k,
            decreases n - i,
        {
            ids.push(i);
            i += 1;
        }
        let mut jobs: Vec<Job> = Vec::new();
        jobs.push(Job { start: 0, end: n, left_right: 0, depth: 0, parent: 0 });
        let ghost mut pos: Seq<int> = Seq::empty();
        let ghost mut ranges: Seq<Seq<usize>> = Seq::empty();
        let ghost mut sz: Seq<int> = Seq::empty();
        proof {
            assert(jobs_total(jobs@) == n) by {
                assert(jobs@.drop_last() =~= Seq::<Job>::empty());
                assert(jobs@.last().end == n && jobs@.last().start == 0);
                assert(jobs_total(jobs@.drop_last()) == 0);
            }
        }
        while jobs.len() > 0
            invariant
                n == points@.len(),
                0 < D,
                points_sorter.sorter_ready(points@),
                points_sorter.sorts(points@) == sorting,
                sz.len() == tree@.len(),
                tree@.len() > 0 ==> sz[0] == n,
                forall|i: int, c: int|
                    0 <= i < tree@.len() && 0 <= c < 2 && (#[trigger] child(tree@, i, c)) is Some ==> side_share(sz[i], c) > 0
                        && sz[child(tree@, i, c)->0 as int] == side_share(sz[i], c),
                forall|i: int, c: int|
                    0 <= i < tree@.len() && 0 <= c < 2 && (#[trigger] child(tree@, i, c)) is None && side_share(sz[i], c) > 0
                        ==> slot_pending(jobs@, i, c),
                tree@.len() > 0 ==> forall|a: int|
                    0 <= a < jobs@.len() ==> (#[trigger] jobs@[a]).end - jobs@[a].start == side_share(
                        sz[jobs@[a].parent as int],
                        jobs@[a].left_right as int,
                    ),
                ids@.len() == n,
                indices_in_bounds(n as int, ids@),
                ids@.no_duplicates(),
                pos.len() == tree@.len(),
                ranges.len() == tree@.len(),
                tree@.len() <= n,
                forall|j: int|
                    0 <= j < tree@.len() ==> 0 <= #[trigger] pos[j] < n && tree@[j].index == ids@[pos[j]],
                forall|j1: int, j2: int|
                    0 <= j1 < tree@.len() && 0 <= j2 < tree@.len() && j1 != j2 ==> #[trigger] pos[j1]
                        != #[trigger] pos[j2],
                links_ok(tree@),
                forall|j: int| 0 <= j < tree@.len() ==> #[trigger] ranges[j].contains(tree@[j].index),
                forall|i: int, c: int|
                    0 <= i < tree@.len() && 0 <= c < 2 && (#[trigger] child(tree@, i, c)) is Some
                        ==> forall|x: usize|
                        #[trigger] ranges[child(tree@, i, c)->0 as int].contains(x) ==> ranges[i].contains(x)
                            && (sorting ==> on_side::<P, D>(
                            points@,
                            c,
                            x,
                            tree@[i].index,
                            split_axis::<D>(tree@, i),
                        )),
                forall|a: int|
                    0 <= a < jobs@.len() ==> #[trigger] jobs@[a].start < jobs@[a].end <= n
                        && jobs@[a].left_right < 2,
                forall|a: int, b: int|
                    0 <= a < b < jobs@.len() ==> #[trigger] jobs@[a].end <= #[trigger] jobs@[b].start
                        || jobs@[b].end <= jobs@[a].start,
                forall|a: int, j: int|
                    0 <= a < jobs@.len() && 0 <= j < tree@.len() ==> !(#[trigger] jobs@[a].start
                        <= #[trigger] pos[j] < jobs@[a].end),
                tree@.len() + jobs_total(jobs@) == n,
                tree@.len() == 0 ==> jobs@.len() == 1 && jobs@[0].start == 0 && jobs@[0].end == n
                    && jobs@[0].depth == 0,
                tree@.len() > 0 ==> forall|a: int|
                    0 <= a < jobs@.len() ==> #[trigger] jobs@[a].parent < tree@.len()
                        && jobs@[a].depth == depth(tree@, jobs@[a].parent as int) + 1 && child(
                        tree@,
                        jobs@[a].parent as int,
                        jobs@[a].left_right as int,
                    ) is None,
                forall|a: int, b: int|
                    0 <= a < b < jobs@.len() ==> #[trigger] jobs@[a].parent != #[trigger] jobs@[b].parent
                        || jobs@[a].left_right != jobs@[b].left_right,
                tree@.len() > 0 ==> forall|a: int, q: int|
                    0 <= a < jobs@.len() && #[trigger] jobs@[a].start <= q < jobs@[a].end ==> ranges[jobs@[a].parent as int].contains(
                        #[trigger] ids@[q],
                    ) && (sorting ==> on_side::<P, D>(
                        points@,
                        jobs@[a].left_right as int,
                        ids@[q],
                        tree@[jobs@[a].parent as int].index,
                        split_axis::<D>(tree@, jobs@[a].parent as int),
                    )),
            decreases 2 * jobs_total(jobs@) + jobs@.len(),
        {
            let ghost j_all = jobs@;
            let ghost t0 = tree@;
            let ghost ids0 = ids@;
            let job = jobs.pop().unwrap();
            let ghost j0 = jobs@;
            proof {
                assert(j0 =~= j_all.drop_last());
                assert(job == j_all[j_all.len() - 1]);
                assert(forall|a: int| 0 <= a < j0.len() ==> j0[a] == j_all[a]);
                if t0.len() > 0 {
                    lemma_depth_bound(t0, job.parent as int);
                }
                lemma_jobs_total_nonneg(j0);
                assert(jobs_total(j_all) == jobs_total(j0) + (job.end - job.start));
            }
            let start = job.start;
            let end = job.end;
            let axis = job.depth % D;
            let pivot = start + (end - start) / 2;
            sort_range(points, &mut ids, start, end, axis, &mut points_sorter);
            let ghost sorted = ids@.subrange(start as int, end as int);
            let tree_index = tree.len();
            tree.push(KdTreeNode { parent: job.parent, index: ids[pivot], children: [None, None] });
            let ghost t1 = tree@;
            if tree_index > 0 {
                let mut node = tree[job.parent];
                if job.left_right == 0 {
                    node.children = [Some(tree_index), node.children[1]];
                } else {
                    node.children = [node.children[0], Some(tree_index)];
                }
                tree.set(job.parent, node);
            }
            if start != pivot {
                let ghost before = jobs@;
                let left = Job { start, end: pivot, left_right: 0, depth: job.depth + 1, parent: tree_index };
                jobs.push(left);
                proof {
                    lemma_jobs_total_push(before, left);
                }
            }
            let ghost j1 = jobs@;
            if pivot + 1 != end {
                let ghost before = jobs@;
                let right = Job { start: pivot + 1, end, left_right: 1, depth: job.depth + 1, parent: tree_index };
                jobs.push(right);
                proof {
                    lemma_jobs_total_push(before, right);
                }
            }
            proof {
                let t2 = tree@;
                pos = pos.push(pivot as int);
                ranges = ranges.push(sorted);
                let sz0 = sz;
                sz = sz.push(end - start);
                lemma_multiset_no_duplicates(ids0, ids@);
                // parent links are unchanged
                assert forall|k: int| 0 <= k < t2.len() implies #[trigger] t2[k].parent == t1[k].parent by {}
                assert forall|k: int| 0 <= k < t0.len() implies depth(t2, k) == depth(t0, k) && split_axis::<D>(t2, k) == split_axis::<D>(t0, k) by {
                    lemma_parent_frame(t2, t0, k);
                }
                lemma_parent_frame(t2, t1, tree_index as int);
                assert(split_axis::<D>(t2, tree_index as int) == axis) by {
                    if tree_index > 0 {
                        lemma_parent_frame(t2, t0, job.parent as int);
                    }
                }
                assert forall|k: int| 0 <= k < t0.len() implies #[trigger] t2[k].index == t0[k].index by {}
                assert(t2[tree_index as int].index == sorted[pivot - start]);
                assert forall|x: usize| #[trigger] sorted.contains(x) && tree_index > 0 implies ranges[job.parent as int].contains(x)
                    && (sorting ==> on_side::<P, D>(points@, job.left_right as int, x, t2[job.parent as int].index, split_axis::<D>(t2, job.parent as int))) by {
                    let k = choose|k: int| 0 <= k < sorted.len() && sorted[k] == x;
                    let k2 = lemma_multiset_member(sorted, ids0.subrange(start as int, end as int), k);
                    assert(ids0[start + k2] == x);
                    assert(j_all[j_all.len() - 1].start <= start + k2 < j_all[j_all.len() - 1].end);
                }
                let ti = tree_index as int;
                let jp = job.parent as int;
                let side = job.left_right as int;
                let jj = jobs@;
                // the pending jobs: the old ones, then those of the new node
                assert(jobs_total(jj) == jobs_total(j0) + (pivot - start) + (end - pivot - 1));
                assert(forall|a: int| 0 <= a < j0.len() ==> jj[a] == j0[a]);
                assert(forall|a: int|
                    j0.len() <= a < jj.len() ==> #[trigger] jj[a].parent == tree_index && jj[a].depth
                        == job.depth + 1 && jj[a].left_right < 2 && (jj[a].left_right == 0 ==> jj[a].start
                        == start && jj[a].end == pivot) && (jj[a].left_right == 1 ==> jj[a].start == pivot
                        + 1 && jj[a].end == end) && jj[a].start < jj[a].end);
                assert(forall|a: int, b: int|
                    j0.len() <= a < b < jj.len() ==> #[trigger] jj[a].left_right == 0 && #[trigger] jj[b].left_right == 1);
                // the children slots
                assert(forall|c: int| 0 <= c < 2 ==> #[trigger] child(t2, ti, c) is None);
                assert forall|i: int, c: int|
                    0 <= i < ti && 0 <= c < 2 && !(ti > 0 && i == jp && c == side) implies #[trigger] child(t2, i, c) == child(t0, i, c) by {
                    if i == jp {
                        assert(t2[i].children@[c] == t0[i].children@[c]);
                    }
                }
                assert(ti > 0 ==> is_child(t2, jp, side, ti));
                assert(ti > 0 ==> child(t0, jp, side) is None);
                assert(links_ok(t2)) by {
                    assert forall|i: int, c: int|
                        0 <= i < t2.len() && 0 <= c < 2 && (#[trigger] child(t2, i, c)) is Some implies i < child(
                            t2,
                            i,
                            c,
                        )->0 < t2.len() && t2[child(t2, i, c)->0 as int].parent == i by {
                        if !(ti > 0 && i == jp && c == side) {
                            assert(child(t0, i, c) is Some);
                        }
                    }
                    assert forall|i: int|
                        0 <= i < t2.len() && (#[trigger] t2[i].children@[0]) is Some && t2[i].children@[1] is Some
                            implies t2[i].children@[0] != t2[i].children@[1] by {
                        assert(child(t2, i, 0) == t2[i].children@[0]);
                        assert(child(t2, i, 1) == t2[i].children@[1]);
                        if ti > 0 && i == jp {
                            let o = 1 - side;
                            assert(child(t2, i, o) == child(t0, i, o));
                            assert(child(t0, i, o) is Some ==> child(t0, i, o)->0 < ti);
                        } else if i < ti {
                            assert(child(t0, i, 0) == t0[i].children@[0]);
                            assert(child(t0, i, 1) == t0[i].children@[1]);
                        }
                    }
                    assert forall|k: int|
                        0 < k < t2.len() implies (#[trigger] t2[k].parent) < k && (is_child(t2, t2[k].parent as int, 0, k)
                            || is_child(t2, t2[k].parent as int, 1, k)) by {
                        if k < ti {
                            let pk = t0[k].parent as int;
                            assert(t0[k].parent < k);
                            if is_child(t0, pk, 0, k) {
                                assert(child(t2, pk, 0) == child(t0, pk, 0));
                            } else {
                                assert(is_child(t0, pk, 1, k));
                                assert(child(t2, pk, 1) == child(t0, pk, 1));
                            }
                        }
                    }
                }
                let last = j_all.len() - 1;
                assert(j_all[last] == job);
                // old jobs and old nodes keep clear of the popped range
                assert forall|a: int| 0 <= a < j0.len() implies (#[trigger] j0[a]).end <= start || end <= j0[a].start by {
                    assert(j_all[a] == j0[a]);
                }
                assert forall|j: int| 0 <= j < ti implies !(start <= #[trigger] pos[j] < end) by {
                    assert(!(j_all[last].start <= pos[j] < j_all[last].end));
                }
                assert forall|q: int| 0 <= q < n && !(start <= q < end) implies #[trigger] ids@[q] == ids0[q] by {}
                assert(depth(t2, ti) == job.depth) by {
                    if ti > 0 {
                        lemma_parent_frame(t2, t0, jp);
                    }
                }
                // the old jobs' slots differ from the popped one
                assert forall|a: int| 0 <= a < j0.len() implies !(#[trigger] j0[a].parent == jp && j0[a].left_right == side) by {
                    assert(j_all[a] == j0[a]);
                }
                assert forall|q: int| start <= q < end implies #[trigger] ids@[q] == sorted[q - start] by {}
                assert forall|j: int| 0 <= j < pos.len() implies 0 <= #[trigger] pos[j] < n && t2[j].index == ids@[pos[j]] by {
                    if j < ti {
                        assert(t2[j].index == t0[j].index);
                    }
                }
                assert forall|j: int| 0 <= j < t2.len() implies #[trigger] ranges[j].contains(t2[j].index) by {
                    if j == ti {
                        assert(sorted[pivot - start] == t2[j].index);
                    } else {
                        assert(t2[j].index == t0[j].index);
                    }
                }
                assert forall|i: int, c: int|
                    0 <= i < t2.len() && 0 <= c < 2 && (#[trigger] child(t2, i, c)) is Some implies forall|x: usize|
                        #[trigger] ranges[child(t2, i, c)->0 as int].contains(x) ==> ranges[i].contains(x)
                            && (sorting ==> on_side::<P, D>(points@, c, x, t2[i].index, split_axis::<D>(t2, i))) by {
                    if ti > 0 && i == jp && c == side {
                        assert(child(t2, i, c)->0 == tree_index);
                        assert(ranges[ti] == sorted);
                    } else {
                        assert(i < ti);
                        assert(child(t2, i, c) == child(t0, i, c));
                        assert(t2[i].index == t0[i].index);
                    }
                }
                assert forall|a: int| 0 <= a < jj.len() implies #[trigger] jj[a].parent < t2.len()
                    && jj[a].depth == depth(t2, jj[a].parent as int) + 1 && child(t2, jj[a].parent as int, jj[a].left_right as int) is None by {
                    if a < j0.len() {
                        assert(j_all[a] == j0[a]);
                        assert(jj[a].parent < ti);
                        assert(!(j0[a].parent == jp && j0[a].left_right == side));
                        assert(jj[a].left_right < 2);
                        let pa = jj[a].parent as int;
                        let ca = jj[a].left_right as int;
                        assert(0 <= pa < ti && 0 <= ca < 2 && !(ti > 0 && pa == jp && ca == side));
                        assert(child(t2, pa, ca) == child(t0, pa, ca));
                    }
                }
                assert forall|a: int, q: int|
                    0 <= a < jj.len() && #[trigger] jj[a].start <= q < jj[a].end implies ranges[jj[a].parent as int].contains(
                        #[trigger] ids@[q],
                    ) && (sorting ==> on_side::<P, D>(points@, jj[a].left_right as int, ids@[q], t2[jj[a].parent as int].index,
                        split_axis::<D>(t2, jj[a].parent as int))) by {
                    if a < j0.len() {
                        assert(j_all[a] == j0[a]);
                        assert(ids@[q] == ids0[q]);
                        assert(t2[jj[a].parent as int].index == t0[jj[a].parent as int].index);
                        assert(j_all[a].start <= q < j_all[a].end);
                    } else {
                        assert(ids@[q] == sorted[q - start]);
                        assert(sorted.contains(sorted[q - start]));
                        assert(t2[ti].index == sorted[pivot - start]);
                        assert(ranges[ti] == sorted);
                    }
                }
                assert forall|a: int, b: int| 0 <= a < b < jj.len() implies #[trigger] jj[a].end <= #[trigger] jj[b].start
                    || jj[b].end <= jj[a].start by {
                    if b < j0.len() {
                        assert(j_all[a] == j0[a] && j_all[b] == j0[b]);
                    } else if a < j0.len() {
                        assert(j_all[a] == j0[a]);
                    }
                }
                assert forall|a: int, j: int| 0 <= a < jj.len() && 0 <= j < pos.len() implies !(#[trigger] jj[a].start
                    <= #[trigger] pos[j] < jj[a].end) by {
                    if a < j0.len() {
                        assert(j_all[a] == j0[a]);
                        if j < ti {
                            assert(!(j_all[a].start <= pos[j] < j_all[a].end));
                        }
                    }
                }
                assert forall|a: int, b: int| 0 <= a < b < jj.len() implies #[trigger] jj[a].parent != #[trigger] jj[b].parent
                    || jj[a].left_right != jj[b].left_right by {
                    if b < j0.len() {
                        assert(j_all[a] == j0[a] && j_all[b] == j0[b]);
                    } else if a < j0.len() {
                        assert(j_all[a] == j0[a]);
                    }
                }
                assert forall|a: int| 0 <= a < jj.len() implies #[trigger] jj[a].start < jj[a].end <= n
                    && jj[a].left_right < 2 by {
                    if a < j0.len() {
                        assert(j_all[a] == j0[a]);
                    }
                }
                assert(ti > 0 ==> end - start == side_share(sz0[jp], side)) by {
                    if ti > 0 {
                        assert(j_all[last] == job);
                    }
                }
                assert forall|i: int, c: int|
                    0 <= i < t2.len() && 0 <= c < 2 && (#[trigger] child(t2, i, c)) is Some implies side_share(sz[i], c) > 0
                        && sz[child(t2, i, c)->0 as int] == side_share(sz[i], c) by {
                    if ti > 0 && i == jp && c == side {
                        assert(child(t2, i, c)->0 == tree_index);
                    } else {
                        assert(i < ti);
                        assert(child(t2, i, c) == child(t0, i, c));
                    }
                }
                assert forall|a: int| 0 <= a < jj.len() implies (#[trigger] jj[a]).end - jj[a].start == side_share(
                    sz[jj[a].parent as int],
                    jj[a].left_right as int,
                ) by {
                    if a < j0.len() {
                        assert(j_all[a] == j0[a]);
                        assert(jj[a].parent < ti);
                    }
                }
                assert forall|i: int, c: int|
                    0 <= i < t2.len() && 0 <= c < 2 && (#[trigger] child(t2, i, c)) is None && side_share(sz[i], c) > 0
                        implies slot_pending(jj, i, c) by {
                    if i == ti {
                        if c == 0 {
                            assert(jj[j0.len() as int].parent == i && jj[j0.len() as int].left_right == c);
                        } else {
                            assert(jj[jj.len() - 1].parent == i && jj[jj.len() - 1].left_right == c);
                        }
                    } else {
                        assert(child(t2, i, c) == child(t0, i, c));
                        let a = choose|a: int| 0 <= a < j_all.len() && (#[trigger] j_all[a]).parent == i && j_all[a].left_right == c;
                        assert(a != last);
                        assert(jj[a] == j_all[a]);
                    }
                }
            }
        }
        proof {
            let t = tree@;
            assert(jobs_total(jobs@) == 0);
            assert(t.len() == n);
            assert forall|i: int| 0 <= i < t.len() implies (#[trigger] t[i].index) < n by {
                assert(t[i].index == ids@[pos[i]]);
            }
            assert forall|i: int, j: int| 0 <= i < t.len() && 0 <= j < t.len() && i != j implies (#[trigger] t[i].index)
                != (#[trigger] t[j].index) by {
                assert(pos[i] != pos[j]);
            }
            assert(median_split_sizes(t, n as int, sz));
            if sorting {
                assert forall|i: int, j: int, c: int|
                    0 <= i < t.len() && 0 <= j < t.len() && 0 <= c < 2 && #[trigger] in_side(t, j, i, c)
                        implies on_side::<P, D>(points@, c, t[j].index, t[i].index, split_axis::<D>(t, i)) by {
                    let k = child(t, i, c)->0 as int;
                    lemma_desc_ranges(t, ranges, j, k);
                    assert(ranges[j].contains(t[j].index));
                    assert(ranges[k].contains(t[j].index));
                }
            }
        }
        KdTreeNoBorrow { tree, __marker: std::marker::PhantomData }
    }
    /// Pushes the children of node `k`, visited at depth `d`, that may hold points within
    /// `radius` of `query_point`: the child on the query's side of the splitting plane first,
    /// then the other one when the plane lies within `radius`.
    fn push_children(
        &self,
        points: &[P],
        query_point: &P,
        radius: i64,
        stack: &mut Vec<(usize, usize)>,
        d: usize,
        k: usize,
    )
        requires
            D > 0,
            self.wf(points@),
            k < self.tree@.len(),
            d == depth(self.tree@, k as int),
        ensures
            (final(stack)@ == old(stack)@ + expand::<P, D>(
                self.tree@,
                points@,
                *query_point,
                radius as int,
                d,
                k as int,
            )),
    {
        proof {
            lemma_depth_bound(self.tree@, k as int);
        }
        let point_index = self.tree[k].index;
        let axis = d % D;
        let axis_query_point_val = query_point.get_axis(axis);
        let axis_tree_point_val = points[point_index].get_axis(axis);
        let axis_d: i64 = axis_tree_point_val as i64 - axis_query_point_val as i64;
        let left_first = axis_d >= 0;
        let distance_to_plane: i64 = if axis_d >= 0 {
            axis_d
        } else {
            -axis_d
        };
        let needs_to_go_both = distance_to_plane <= radius;
        let first: usize = if left_first {
            0
        } else {
            1
        };
        let last: usize = (first + 1) % 2;
        let ghost st = stack@;
        let children = self.tree[k].children;
        if let Some(child) = children[first] {
            stack.push((d + 1, child));
        }
        if needs_to_go_both {
            if let Some(child) = children[last] {
                stack.push((d + 1, child));
            }
        }
        proof {
            let ex = expand::<P, D>(self.tree@, points@, *query_point, radius as int, d, k as int);
            assert(stack@ =~= st + ex);
        }
    }

    /// Appends to `result` the index of every point within `radius` of `query_point`, each
    /// once; `result` is not cleared first. `stack` must be empty and is empty again on return.
    pub fn point_indices_within_buffers(
        &self,
        points: &[P],
        query_point: P,
        radius: i64,
        result: &mut Vec<usize>,
        stack: &mut Vec<(usize, usize)>,
    )
        requires
            D > 0,
            self.wf(points@),
            old(stack)@.len() == 0,
        ensures
            final(stack)@.len() == 0,
            final(result)@.len() >= old(result)@.len(),
            final(result)@.subrange(0, old(result)@.len() as int) == old(result)@,
            (is_match_list::<P, D>(
                points@,
                query_point,
                radius as int,
                final(result)@.skip(old(result)@.len() as int),
            )),
    {
        let ghost res0 = result@;
        if self.tree.len() == 0 {
            proof {
                assert(result@.skip(res0.len() as int) =~= Seq::<usize>::empty());
                assert(result@.subrange(0, res0.len() as int) =~= res0);
            }
            return;
        }
        let ghost t = self.tree@;
        let ghost mut seen: Set<int> = Set::empty();
        let ghost mut found: Seq<int> = Seq::empty();
        stack.push((0, 0));
        proof {
            assert(stack@ =~= seq![(0usize, 0usize)]);
            lemma_walk_start::<P, D>(t, points@, query_point, radius as int, stack@);
            assert(found_indices(t, found) =~= Seq::<usize>::empty());
            assert(result@ =~= res0 + found_indices(t, found));
        }
        while stack.len() > 0
            invariant
                D > 0,
                self.wf(points@),
                t == self.tree@,
                t.len() <= usize::MAX,
                walk_inv::<P, D>(t, points@, query_point, radius as int, stack@, seen, found),
                seen.len() <= t.len(),
                result@ == res0 + found_indices(t, found),
            decreases t.len() - seen.len(),
        {
            let ghost st = stack@;
            let (depth, tree_index) = stack.pop().unwrap();
            proof {
                assert(stack@ =~= st.drop_last());
                assert(st.last() == (depth, tree_index));
                lemma_walk_step::<P, D>(t, points@, query_point, radius as int, st, seen, found);
                assert(st[st.len() - 1] == (depth, tree_index));
            }
            let point_index = self.tree[tree_index].index;
            if point_within::<P, D>(&points[point_index], &query_point, radius) {
                result.push(point_index);
                proof {
                    assert(found_indices(t, found.push(tree_index as int)) =~= found_indices(t, found).push(point_index));
                    found = found.push(tree_index as int);
                }
            }
            self.push_children(points, &query_point, radius, stack, depth, tree_index);
            proof {
                seen = seen.insert(tree_index as int);
            }
        }
        proof {
            assert(stack@ =~= Seq::<(usize, usize)>::empty());
            lemma_walk_done::<P, D>(t, points@, query_point, radius as int, seen, found);
            assert(result@.skip(res0.len() as int) =~= found_indices(t, found));
            assert(result@.subrange(0, res0.len() as int) =~= res0);
        }
    }

    /// Starts a lazy query: the returned sequence yields the index of every point within
    /// `radius` of `query_point`, each once. `stack` must be empty.
    pub fn iter_point_indices_within_buffers<'a>(
        &'a self,
        points: &'a [P],
        query_point: P,
        radius: i64,
        stack: &'a mut Vec<(usize, usize)>,
    ) -> (r: IndicesWithinIterator<'a, D, P>)
        requires
            D > 0,
            self.wf(points@),
            old(stack)@.len() == 0,
        ensures
            r.inv(),
            r.tree == self,
            r.points@ == points@,
            r.query_point == query_point,
            r.radius == radius,
            r.yielded().len() == 0,
            self.tree@.len() > 0 ==> r.stack@ == seq![(0usize, 0usize)],
            self.tree@.len() == 0 ==> r.stack@.len() == 0,
            r.seen@ == Set::<int>::empty(),
            r.found@ == Seq::<int>::empty(),
    {
        let ghost t = self.tree@;
        if self.tree.len() > 0 {
            stack.push((0, 0));
            proof {
                assert(stack@ =~= seq![(0usize, 0usize)]);
                lemma_walk_start::<P, D>(t, points@, query_point, radius as int, stack@);
            }
        }
        IndicesWithinIterator {
            stack,
            tree: self,
            points,
            radius,
            query_point,
            seen: Ghost(Set::empty()),
            found: Ghost(Seq::empty()),
        }
    }

    /// Returns the indices of the points within `radius` of `query_point`, each once.
    pub fn point_indices_within(&self, points: &[P], query_point: P, radius: i64) -> (r: Vec<usize>)
        requires
            D > 0,
            self.wf(points@),
        ensures
            (is_match_list::<P, D>(points@, query_point, radius as int, r@)),
    {
        let mut result: Vec<usize> = Vec::new();
        let mut stack: Vec<(usize, usize)> = Vec::new();
        self.point_indices_within_buffers(points, query_point, radius, &mut result, &mut stack);
        proof {
            assert(result@.skip(0) =~= result@);
        }
        result
    }
}

/// A lazy radius query: each call of `next` yields the index of one more point within
/// `radius` of `query_point`, until none is left.
pub struct IndicesWithinIterator<'a, const D: usize, P: Point<D>> {
    pub stack: &'a mut Vec<(usize, usize)>,
    pub tree: &'a KdTreeNoBorrow<D, P>,
    pub points: &'a [P],
    pub radius: i64,
    pub query_point: P,
    pub seen: Ghost<Set<int>>,
    pub found: Ghost<Seq<int>>,
}

impl<'a, const D: usize, P: Point<D>> IndicesWithinIterator<'a, D, P> {
    /// The query is in progress: the stack and the visited nodes are those of a traversal.
    pub open spec fn inv(&self) -> bool {
        &&& D > 0
        &&& self.tree.wf(self.points@)
        &&& self.tree.tree@.len() <= usize::MAX
        &&& walk_inv::<P, D>(
            self.tree.tree@,
            self.points@,
            self.query_point,
            self.radius as int,
            self.stack@,
            self.seen@,
            self.found@,
        )
        &&& self.seen@.len() <= self.tree.tree@.len()
    }

    /// An upper bound on the number of indices still to come: the nodes not yet visited.
    pub open spec fn remaining(&self) -> int {
        self.tree.tree@.len() - self.seen@.len()
    }

    /// The indices yielded so far, in order.
    pub open spec fn yielded(&self) -> Seq<usize> {
        found_indices(self.tree.tree@, self.found@)
    }

    /// Yields the next matching index, or `None` once every match has been yielded; the
    /// indices yielded over the whole query are exactly those of the points within `radius`.
    pub fn next(&mut self) -> (r: Option<usize>)
        requires
            old(self).inv(),
        ensures
            final(self).inv(),
            final(self).tree == old(self).tree,
            final(self).points@ == old(self).points@,
            final(self).query_point == old(self).query_point,
            final(self).radius == old(self).radius,
            r is Some ==> final(self).yielded() == old(self).yielded().push(r->0),
            r is Some ==> 0 <= final(self).remaining() < old(self).remaining(),
            r is None ==> final(self).yielded() == old(self).yielded() && final(self).stack@.len() == 0
                && (is_match_list::<P, D>(
                final(self).points@,
                final(self).query_point,
                final(self).radius as int,
                final(self).yielded(),
            )),
    {
        let ghost t = self.tree.tree@;
        let ghost y0 = self.yielded();
        while self.stack.len() > 0
            invariant
                self.inv(),
                t == self.tree.tree@,
                self.tree == old(self).tree,
                self.points@ == old(self).points@,
                self.query_point == old(self).query_point,
                self.radius == old(self).radius,
                self.yielded() == y0,
                y0 == old(self).yielded(),
                self.seen@.len() >= old(self).seen@.len(),
            decreases t.len() - self.seen@.len(),
        {
            let ghost st = self.stack@;
            let (depth, tree_index) = self.stack.pop().unwrap();
            proof {
                assert(self.stack@ =~= st.drop_last());
                assert(st.last() == (depth, tree_index));
                lemma_walk_step::<P, D>(
                    t,
                    self.points@,
                    self.query_point,
                    self.radius as int,
                    st,
                    self.seen@,
                    self.found@,
                );
                assert(st[st.len() - 1] == (depth, tree_index));
            }
            let point_index = self.tree.tree[tree_index].index;
            self.tree.push_children(self.points, &self.query_point, self.radius, self.stack, depth, tree_index);
            proof {
                self.seen = Ghost(self.seen@.insert(tree_index as int));
            }
            if point_within::<P, D>(&self.points[point_index], &self.query_point, self.radius) {
                proof {
                    assert(found_indices(t, self.found@.push(tree_index as int)) =~= found_indices(
                        t,
                        self.found@,
                    ).push(point_index));
                    self.found = Ghost(self.found@.push(tree_index as int));
                    assert(self.yielded() == y0.push(point_index));
                }
                return Some(point_index);
            }
        }
        proof {
            assert(self.stack@ =~= Seq::<(usize, usize)>::empty());
            lemma_walk_done::<P, D>(
                t,
                self.points@,
                self.query_point,
                self.radius as int,
                self.seen@,
                self.found@,
            );
        }
        None
    }
}

/// A k-d tree of points of dimension `D` that borrows its points, so that they cannot change
/// while the tree is in use.
pub struct KdTree<'a, const D: usize, P: Point<D>> {
    pub internal: KdTreeNoBorrow<D, P>,
    pub points: &'a [P],
}

impl<'a, const D: usize, P: Point<D>> KdTree<'a, D, P> {
    /// The tree is a k-d tree over the points it borrows.
    pub open spec fn wf(&self) -> bool {
        self.internal.wf(self.points@)
    }

    /// Builds the tree with the default strategy.
    pub fn from_points(points: &'a [P]) -> (r: Self)
        requires
            D > 0,
        ensures
            r.wf(),
            r.points@ == points@,
            is_median_split(r.internal.tree@, points@.len() as int),
    {
        KdTree { internal: KdTreeNoBorrow::from_points(points), points }
    }

    /// Builds the tree with a stable sort of each range.
    pub fn from_items(points: &'a [P]) -> (r: Self)
        requires
            D > 0,
        ensures
            r.wf(),
            r.points@ == points@,
            is_median_split(r.internal.tree@, points@.len() as int),
    {
        KdTree {
            internal: KdTreeNoBorrow::from_points_with_strategy(points, &SortingStrategy::StableSort),
            points,
        }
    }

    /// Builds the tree, ordering each range with `strategy`.
    pub fn from_points_with_strategy(points: &'a [P], strategy: &SortingStrategy) -> (r: Self)
        requires
            D > 0,
        ensures
            r.wf(),
            r.points@ == points@,
            is_median_split(r.internal.tree@, points@.len() as int),
    {
        KdTree { internal: KdTreeNoBorrow::from_points_with_strategy(points, strategy), points }
    }

    /// Builds the tree from orders of all points presorted once per axis with `strategy`.
    pub fn from_points_presort_with_strategy(points: &'a [P], strategy: &SortingStrategy) -> (r: Self)
        requires
            D > 0,
        ensures
            r.wf(),
            r.points@ == points@,
            is_median_split(r.internal.tree@, points@.len() as int),
    {
        KdTree { internal: KdTreeNoBorrow::from_points_presort_with_strategy(points, strategy), points }
    }

    /// Builds the tree, ordering each range with `points_sorter`.
    pub fn from_points_with_points_sorter<S: PointsSorter<D, P>>(points: &'a [P], points_sorter: S) -> (r: Self)
        requires
            D > 0,
            points_sorter.sorter_ready(points@),
        ensures
            tree_shape_ok(r.internal.tree@, points@.len() as int),
            points_sorter.sorts(points@) ==> r.wf(),
            r.points@ == points@,
            is_median_split(r.internal.tree@, points@.len() as int),
    {
        KdTree { internal: KdTreeNoBorrow::from_points_with_points_sorter(points, points_sorter), points }
    }

    /// Builds the tree from orders of all points presorted once per axis with `points_sorter`.
    pub fn from_points_presort_with_points_sorter<S: PointsSorter<D, P>>(
        points: &'a [P],
        points_sorter: S,
    ) -> (r: Self)
        requires
            D > 0,
            points_sorter.sorter_ready(points@),
        ensures
            tree_shape_ok(r.internal.tree@, points@.len() as int),
            points_sorter.sorts(points@) ==> r.wf(),
            r.points@ == points@,
            is_median_split(r.internal.tree@, points@.len() as int),
    {
        KdTree {
            internal: KdTreeNoBorrow::from_points_presort_with_points_sorter(points, points_sorter),
            points,
        }
    }

    /// Appends to `result` the index of every point within `radius` of `query_point`, each
    /// once; `result` is not cleared first. `stack` must be empty and is empty again on return.
    pub fn point_indices_within_buffers(
        &self,
        query_point: P,
        radius: i64,
        result: &mut Vec<usize>,
        stack: &mut Vec<(usize, usize)>,
    )
        requires
            D > 0,
            self.wf(),
            old(stack)@.len() == 0,
        ensures
            final(stack)@.len() == 0,
            final(result)@.len() >= old(result)@.len(),
            final(result)@.subrange(0, old(result)@.len() as int) == old(result)@,
            (is_match_list::<P, D>(
                self.points@,
                query_point,
                radius as int,
                final(result)@.skip(old(result)@.len() as int),
            )),
    {
        self.internal.point_indices_within_buffers(self.points, query_point, radius, result, stack)
    }

    /// The same query as `point_indices_within_buffers`, with the stack named `to_check`.
    pub fn nearest_within_buffers(
        &self,
        query_point: P,
        radius: i64,
        result: &mut Vec<usize>,
        to_check: &mut Vec<(usize, usize)>,
    )
        requires
            D > 0,
            self.wf(),
            old(to_check)@.len() == 0,
        ensures
            final(to_check)@.len() == 0,
            final(result)@.len() >= old(result)@.len(),
            final(result)@.subrange(0, old(result)@.len() as int) == old(result)@,
            (is_match_list::<P, D>(
                self.points@,
                query_point,
                radius as int,
                final(result)@.skip(old(result)@.len() as int),
            )),
    {
        self.internal.point_indices_within_buffers(self.points, query_point, radius, result, to_check)
    }

    /// Returns the indices of the points within `radius` of `query_point`, each once.
    pub fn point_indices_within(&self, query_point: P, radius: i64) -> (r: Vec<usize>)
        requires
            D > 0,
            self.wf(),
        ensures
            (is_match_list::<P, D>(self.points@, query_point, radius as int, r@)),
    {
        self.internal.point_indices_within(self.points, query_point, radius)
    }

    /// Returns the indices of the points within `radius` of `query_point`, each once.
    pub fn nearest_within(&self, query_point: P, radius: i64) -> (r: Vec<usize>)
        requires
            D > 0,
            self.wf(),
        ensures
            (is_match_list::<P, D>(self.points@, query_point, radius as int, r@)),
    {
        self.internal.point_indices_within(self.points, query_point, radius)
    }

    /// Starts a lazy query over the borrowed points; `stack` must be empty.
    pub fn iter_point_indices_within_buffers<'b>(
        &'b self,
        query_point: P,
        radius: i64,
        stack: &'b mut Vec<(usize, usize)>,
    ) -> (r: IndicesWithinIterator<'b, D, P>)
        requires
            D > 0,
            self.wf(),
            old(stack)@.len() == 0,
        ensures
            r.inv(),
            r.tree == &self.internal,
            r.points@ == self.points@,
            r.query_point == query_point,
            r.radius == radius,
            r.yielded().len() == 0,
            self.internal.tree@.len() > 0 ==> r.stack@ == seq![(0usize, 0usize)],
            self.internal.tree@.len() == 0 ==> r.stack@.len() == 0,
            r.seen@ == Set::<int>::empty(),
            r.found@ == Seq::<int>::empty(),
    {
        self.internal.iter_point_indices_within_buffers(self.points, query_point, radius, stack)
    }
}

} // verus!
