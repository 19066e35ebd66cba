//! Flattened bounding volume hierarchy over a mesh's triangles.
//!
//! The hierarchy is stored as one depth-first pre-order array. Each node
//! owns the contiguous primitive range `[start_index, end_index)` and records
//! in `descendant_count` how many array slots its subtree occupies after it
//! (zero for a leaf). The geometric part of a node, its bounds, is generic:
//! the hierarchy's shape and its traversal do not depend on how bounds are
//! represented or tested.
use vstd::prelude::*;

verus! {

/// Ranges of at most this many primitives become leaves.
pub const BVH_LEAF_MAX: usize = 4;

/// Number of bin boundaries considered when splitting a node.
pub const BVH_NUM_SPLITS: usize = 40;

/// Most primitives a hierarchy can index: a tree over `n` primitives has
/// fewer than `2 n` nodes, and its descendant counts are 32-bit.
pub const BVH_PRIMITIVES_MAX: usize = 0x8000_0000;

/// One node of the flattened hierarchy.
#[derive(Debug)]
pub struct BoundingBox<B> {
    pub start_index: u32,
    pub end_index: u32,
    pub bounds: B,
    pub descendant_count: u32,
}

/// Index of the last array slot of the subtree rooted at `j`.
pub open spec fn last<B>(nodes: Seq<BoundingBox<B>>, j: int) -> int {
    j + nodes[j].descendant_count
}

/// Whether node `j` is a leaf.
pub open spec fn is_leaf<B>(nodes: Seq<BoundingBox<B>>, j: int) -> bool {
    0 <= j < nodes.len() && nodes[j].descendant_count == 0
}

/// Whether node `j` is an internal node.
pub open spec fn is_internal<B>(nodes: Seq<BoundingBox<B>>, j: int) -> bool {
    0 <= j < nodes.len() && nodes[j].descendant_count > 0
}

/// Whether node `j` lies on the path from the root to node `l` (`l` included).
pub open spec fn is_ancestor<B>(nodes: Seq<BoundingBox<B>>, j: int, l: int) -> bool {
    0 <= j <= l <= last(nodes, j)
}

/// Whether primitive `p` lies in the range owned by node `j`.
pub open spec fn covers<B>(nodes: Seq<BoundingBox<B>>, j: int, p: int) -> bool {
    nodes[j].start_index <= p < nodes[j].end_index
}

/// Each node's subtree stays inside the array, and inside the subtree of any
/// node above it.
pub open spec fn nested<B>(nodes: Seq<BoundingBox<B>>) -> bool {
    &&& forall|j: int| 0 <= j < nodes.len() ==> #[trigger] last(nodes, j) < nodes.len()
    &&& forall|j: int, k: int|
        #![trigger last(nodes, j), last(nodes, k)]
        0 <= j < nodes.len() && j < k <= last(nodes, j) ==> {
            &&& last(nodes, k) <= last(nodes, j)
            &&& nodes[j].start_index <= nodes[k].start_index
            &&& nodes[k].end_index <= nodes[j].end_index
        }
}

/// `nodes` is a hierarchy over the primitives `[start, end)`: the root owns
/// that whole range, every subtree is nested in the subtrees above it and
/// owns a sub-range of theirs, every node owns at least one primitive, and
/// every primitive of the range belongs to exactly one leaf. A tree over `n`
/// primitives has fewer than `2 n` nodes.
pub open spec fn well_formed<B>(nodes: Seq<BoundingBox<B>>, start: int, end: int) -> bool {
    &&& start < end
    &&& 1 <= nodes.len() < 2 * (end - start)
    &&& nodes[0].start_index == start
    &&& nodes[0].end_index == end
    &&& last(nodes, 0) == nodes.len() - 1
    &&& nested(nodes)
    &&& forall|j: int| 0 <= j < nodes.len() ==> #[trigger] nodes[j].start_index < nodes[j].end_index
    &&& forall|p: int| start <= p < end ==> #[trigger] in_some_leaf(nodes, p)
    &&& leaves_disjoint(nodes)
}

/// No primitive lies in the ranges of two different leaves.
pub open spec fn leaves_disjoint<B>(nodes: Seq<BoundingBox<B>>) -> bool {
    forall|l1: int, l2: int, p: int|
        is_leaf(nodes, l1) && is_leaf(nodes, l2) && #[trigger] covers(nodes, l1, p)
            && #[trigger] covers(nodes, l2, p) ==> l1 == l2
}

/// A node's range lies within the range of the root.
proof fn lemma_within_root<B>(nodes: Seq<BoundingBox<B>>, start: int, end: int, j: int)
    requires
        well_formed(nodes, start, end),
        0 <= j < nodes.len(),
    ensures
        start <= nodes[j].start_index,
        nodes[j].end_index <= end,
{
    if j > 0 {
        assert(last(nodes, j) <= last(nodes, 0));
    }
}

/// Whether primitive `p` lies in the range of some leaf.
pub open spec fn in_some_leaf<B>(nodes: Seq<BoundingBox<B>>, p: int) -> bool {
    exists|l: int| #[trigger] is_leaf(nodes, l) && covers(nodes, l, p)
}

/// The end of bin `c` when `length` primitives from `start` are cut into
/// `num` bins whose sizes differ by at most one, the larger ones first.
pub open spec fn chunk_end(start: int, length: int, num: int, c: int) -> int {
    start + (c + 1) * (length / num) + if c + 1 < length % num { c + 1 } else { length % num }
}

/// Number of bins that a range of `length` primitives is cut into.
pub open spec fn chunk_count(length: int) -> int {
    if length < BVH_NUM_SPLITS + 1 { length } else { BVH_NUM_SPLITS + 1 }
}

/// Cuts the `length` primitives that start at `start` into consecutive bins,
/// returning the end of each bin.
pub fn chunk_ends(start: usize, length: usize) -> (ends: Vec<usize>)
    requires
        length >= 1,
        start + length <= usize::MAX,
    ensures
        ends.len() == chunk_count(length as int),
        forall|c: int|
            0 <= c < ends.len() ==> #[trigger] ends[c] == chunk_end(
                start as int,
                length as int,
                chunk_count(length as int),
                c,
            ),
        ends[ends.len() - 1] == start + length,
        forall|c: int| 0 < c < ends.len() ==> ends[c - 1] < #[trigger] ends[c],
        start < ends[0],
{
    let num_chunks: usize = if length < BVH_NUM_SPLITS + 1 { length } else { BVH_NUM_SPLITS + 1 };
    let chunk_size: usize = length / num_chunks;
    let remainder: usize = length % num_chunks;
    proof {
        assert(length == num_chunks * chunk_size + remainder) by (nonlinear_arith)
            requires num_chunks > 0, chunk_size == length / num_chunks, remainder == length % num_chunks;
        assert(chunk_size >= 1) by (nonlinear_arith)
            requires num_chunks > 0, num_chunks <= length, chunk_size == length / num_chunks;
    }
    let mut ends: Vec<usize> = Vec::new();
    let mut previous: usize = start;
    let mut chunk: usize = 0;
    while chunk < num_chunks
        invariant
            num_chunks == chunk_count(length as int),
            1 <= num_chunks <= length,
            chunk_size == length / num_chunks,
            chunk_size >= 1,
            remainder == length % num_chunks,
            length == num_chunks * chunk_size + remainder,
            start + length <= usize::MAX,
            0 <= chunk <= num_chunks,
            ends.len() == chunk,
            previous == start + chunk * chunk_size + if chunk < remainder { chunk as int } else { remainder as int },
            forall|c: int|
                0 <= c < ends.len() ==> #[trigger] ends[c] == chunk_end(
                    start as int,
                    length as int,
                    num_chunks as int,
                    c,
                ),
            forall|c: int| 0 < c < ends.len() ==> ends[c - 1] < #[trigger] ends[c],
            chunk > 0 ==> ends[chunk - 1] == previous,
            chunk > 0 ==> start < ends[0],
        decreases num_chunks - chunk,
    {
        let extra: usize = if chunk < remainder { 1 } else { 0 };
        proof {
            assert((chunk + 1) * chunk_size == chunk * chunk_size + chunk_size) by (nonlinear_arith);
            assert(chunk * chunk_size + chunk_size <= num_chunks * chunk_size) by (nonlinear_arith)
                requires chunk < num_chunks, chunk_size >= 1;
        }
        let next: usize = previous + chunk_size + extra;
        ends.push(next);
        previous = next;
        chunk = chunk + 1;
    }
    ends
}

/// Whether the first node of a tree built over `[start, end)` splits it as
/// `split` said: at the point it returned when that point lies strictly
/// inside the range (else at the middle), with the child bounds it returned.
pub open spec fn follows_split<B, F: Fn(usize, usize) -> (usize, B, B)>(
    split: F,
    tree: Seq<BoundingBox<B>>,
    start: int,
    end: int,
) -> bool {
    exists|r: (usize, B, B)|
        #![trigger split.ensures((start as usize, end as usize), r)]
        {
            &&& split.ensures((start as usize, end as usize), r)
            &&& tree[1].end_index == if start < r.0 < end {
                r.0 as int
            } else {
                start + (end - start) / 2
            }
            &&& tree[1].bounds == r.1
            &&& tree[last(tree, 1) + 1].bounds == r.2
        }
}

/// A split answer that the tree's first two subtrees match is a witness of
/// `follows_split`.
proof fn lemma_follows_split<B, F: Fn(usize, usize) -> (usize, B, B)>(
    split: F,
    tree: Seq<BoundingBox<B>>,
    start: int,
    end: int,
    r: (usize, B, B),
)
    requires
        split.ensures((start as usize, end as usize), r),
        tree[1].end_index == if start < r.0 < end {
            r.0 as int
        } else {
            start + (end - start) / 2
        },
        tree[1].bounds == r.1,
        tree[last(tree, 1) + 1].bounds == r.2,
    ensures
        follows_split(split, tree, start, end),
{
}

/// Whether `tree` is the hierarchy that `split` shapes over `[start, end)`:
/// its root owns `[start, end)` and has every other node below it; it is a
/// single leaf for a range of at most `BVH_LEAF_MAX` primitives; otherwise
/// the root is split as `split` said, and is followed by the tree of the left
/// part and then the tree of the right part, each shaped the same way.
pub open spec fn built_by<B, F: Fn(usize, usize) -> (usize, B, B)>(
    split: F,
    tree: Seq<BoundingBox<B>>,
    start: int,
    end: int,
) -> bool
    decreases end - start,
{
    &&& tree.len() >= 1
    &&& tree[0].start_index == start
    &&& tree[0].end_index == end
    &&& tree[0].descendant_count == tree.len() - 1
    &&& if end - start <= BVH_LEAF_MAX {
        tree.len() == 1
    } else {
        let mid = tree[1].end_index as int;
        let cut = last(tree, 1) + 1;
        &&& follows_split(split, tree, start, end)
        &&& start < mid < end
        &&& 1 < cut < tree.len()
        &&& built_by(split, tree.subrange(1, cut), start, mid)
        &&& built_by(split, tree.subrange(cut, tree.len() as int), mid, end)
    }
}

/// A node is a leaf exactly when it owns at most `BVH_LEAF_MAX` primitives.
#[verifier::opaque]
pub open spec fn leaf_rule<B>(nodes: Seq<BoundingBox<B>>) -> bool {
    forall|k: int|
        0 <= k < nodes.len() ==> ((#[trigger] nodes[k].descendant_count == 0) <==> (
        nodes[k].end_index - nodes[k].start_index <= BVH_LEAF_MAX))
}

/// An internal node at `k` has its left child at `k + 1` and its right child
/// right after the left child's subtree; the two children cut the node's
/// range at one point, and the node's descendant count is theirs plus two.
#[verifier::opaque]
pub open spec fn child_layout<B>(nodes: Seq<BoundingBox<B>>) -> bool {
    forall|k: int|
        #[trigger] is_internal(nodes, k) ==> {
            let l = k + 1;
            let r = k + 2 + nodes[l].descendant_count;
            &&& r < nodes.len()
            &&& nodes[l].start_index == nodes[k].start_index
            &&& nodes[l].end_index == nodes[r].start_index
            &&& nodes[r].end_index == nodes[k].end_index
            &&& nodes[k].descendant_count == nodes[l].descendant_count + nodes[r].descendant_count
                + 2
        }
}

/// The node that follows a leaf starts where that leaf ends, and the last
/// node ends where the root ends. With `child_layout` (an internal node
/// starts where its left child starts), the leaves, in array order, tile the
/// root's range from its start to its end.
#[verifier::opaque]
pub open spec fn leaf_tiling<B>(nodes: Seq<BoundingBox<B>>) -> bool {
    &&& forall|k: int|
        0 <= k && k + 1 < nodes.len() && #[trigger] nodes[k].descendant_count == 0
            ==> nodes[k + 1].start_index == nodes[k].end_index
    &&& nodes[nodes.len() - 1].end_index == nodes[0].end_index
}

/// The depth-first pre-order layout of a hierarchy, node by node.
pub open spec fn preorder_layout<B>(nodes: Seq<BoundingBox<B>>) -> bool {
    &&& leaf_rule(nodes)
    &&& child_layout(nodes)
    &&& leaf_tiling(nodes)
}

/// Over a run of internal nodes, each starts where the next one starts.
proof fn lemma_internal_run<B>(nodes: Seq<BoundingBox<B>>, i: int, j: int)
    requires
        child_layout(nodes),
        0 <= i <= j < nodes.len(),
        forall|m: int| i <= m < j ==> #[trigger] nodes[m].descendant_count > 0,
    ensures
        nodes[i].start_index == nodes[j].start_index,
    decreases j - i,
{
    reveal(child_layout);
    if i < j {
        assert(is_internal(nodes, i));
        lemma_internal_run(nodes, i + 1, j);
    }
}

/// The leaves of a hierarchy laid out in pre-order tile the root's range in
/// array order: the first leaf starts where the root starts, each next leaf
/// starts where the previous one ends, and the last node is a leaf that ends
/// where the root ends.
pub proof fn lemma_leaves_tile<B>(nodes: Seq<BoundingBox<B>>)
    requires
        nodes.len() >= 1,
        preorder_layout(nodes),
    ensures
        forall|l: int|
            #[trigger] is_leaf(nodes, l) && (forall|m: int| 0 <= m < l ==> !is_leaf(nodes, m))
                ==> nodes[l].start_index == nodes[0].start_index,
        forall|l1: int, l2: int|
            #[trigger] is_leaf(nodes, l1) && #[trigger] is_leaf(nodes, l2) && l1 < l2 && (forall|
                m: int,
            | l1 < m < l2 ==> !is_leaf(nodes, m)) ==> nodes[l2].start_index
                == nodes[l1].end_index,
        is_leaf(nodes, nodes.len() - 1),
        nodes[nodes.len() - 1].end_index == nodes[0].end_index,
{
    reveal(leaf_tiling);
    reveal(child_layout);
    assert forall|l: int|
        #[trigger] is_leaf(nodes, l) && (forall|m: int| 0 <= m < l ==> !is_leaf(nodes, m))
            implies nodes[l].start_index == nodes[0].start_index by {
        assert forall|m: int| 0 <= m < l implies #[trigger] nodes[m].descendant_count > 0 by {
            assert(!is_leaf(nodes, m));
        }
        lemma_internal_run(nodes, 0, l);
    }
    assert forall|l1: int, l2: int|
        #[trigger] is_leaf(nodes, l1) && #[trigger] is_leaf(nodes, l2) && l1 < l2 && (forall|
            m: int,
        | l1 < m < l2 ==> !is_leaf(nodes, m)) implies nodes[l2].start_index
            == nodes[l1].end_index by {
        assert(nodes[l1].descendant_count == 0);
        assert forall|m: int| l1 + 1 <= m < l2 implies #[trigger] nodes[m].descendant_count > 0 by {
            assert(!is_leaf(nodes, m));
        }
        lemma_internal_run(nodes, l1 + 1, l2);
    }
    let z = nodes.len() - 1;
    if nodes[z].descendant_count > 0 {
        assert(is_internal(nodes, z));
    }
}

/// What the layout lemmas need of a join: a root owning `[start, end)` over
/// a left tree owning `[start, mid)` and a right tree owning `[mid, end)`,
/// each with every other node of its sequence below its root.
pub open spec fn join_shape<B>(
    root: BoundingBox<B>,
    left: Seq<BoundingBox<B>>,
    right: Seq<BoundingBox<B>>,
    start: int,
    mid: int,
    end: int,
) -> bool {
    &&& left.len() >= 1
    &&& right.len() >= 1
    &&& left[0].start_index == start
    &&& left[0].end_index == mid
    &&& left[0].descendant_count == left.len() - 1
    &&& right[0].start_index == mid
    &&& right[0].end_index == end
    &&& right[0].descendant_count == right.len() - 1
    &&& root.start_index == start
    &&& root.end_index == end
    &&& root.descendant_count == left.len() + right.len()
}

proof fn lemma_join_index<B>(
    root: BoundingBox<B>,
    left: Seq<BoundingBox<B>>,
    right: Seq<BoundingBox<B>>,
)
    ensures
        (seq![root] + left + right)[0] == root,
        forall|i: int| 1 <= i <= left.len() ==> #[trigger] (seq![root] + left + right)[i] == left[i - 1],
        forall|i: int|
            left.len() < i < 1 + left.len() + right.len() ==> #[trigger] (seq![root] + left
                + right)[i] == right[i - 1 - left.len()],
        (seq![root] + left + right).len() == 1 + left.len() + right.len(),
{
}

proof fn lemma_join_leaf_rule<B>(
    root: BoundingBox<B>,
    left: Seq<BoundingBox<B>>,
    right: Seq<BoundingBox<B>>,
    start: int,
    mid: int,
    end: int,
)
    requires
        join_shape(root, left, right, start, mid, end),
        end - start > BVH_LEAF_MAX,
        leaf_rule(left),
        leaf_rule(right),
    ensures
        leaf_rule(seq![root] + left + right),
{
    reveal(leaf_rule);
    lemma_join_index(root, left, right);
    let t = seq![root] + left + right;
    let a = left.len() as int;
    assert forall|k: int|
        0 <= k < t.len() implies ((#[trigger] t[k].descendant_count == 0) <==> (t[k].end_index
        - t[k].start_index <= BVH_LEAF_MAX)) by {
        if 1 <= k <= a {
            assert(left[k - 1].descendant_count == t[k].descendant_count);
        } else if k > a {
            assert(right[k - 1 - a].descendant_count == t[k].descendant_count);
        }
    }
}

proof fn lemma_join_child_layout<B>(
    root: BoundingBox<B>,
    left: Seq<BoundingBox<B>>,
    right: Seq<BoundingBox<B>>,
    start: int,
    mid: int,
    end: int,
)
    requires
        join_shape(root, left, right, start, mid, end),
        child_layout(left),
        child_layout(right),
    ensures
        child_layout(seq![root] + left + right),
{
    reveal(child_layout);
    let t = seq![root] + left + right;
    let a = left.len() as int;
    let b = right.len() as int;
    assert forall|k: int| #[trigger] is_internal(t, k) implies {
            let l = k + 1;
            let r = k + 2 + t[l].descendant_count;
            &&& r < t.len()
            &&& t[l].start_index == t[k].start_index
            &&& t[l].end_index == t[r].start_index
            &&& t[r].end_index == t[k].end_index
            &&& t[k].descendant_count == t[l].descendant_count + t[r].descendant_count + 2
        } by {
        if k == 0 {
            assert(t[0] == root);
            assert(t[1] == left[0]);
            assert(t[a + 1] == right[0]);
        } else if k <= a {
            let kk = k - 1;
            assert(t[k] == left[kk]);
            assert(is_internal(left, kk));
            let r = kk + 2 + left[kk + 1].descendant_count;
            assert(r < a);
            assert(t[k + 1] == left[kk + 1]);
            assert(t[r + 1] == left[r]);
        } else {
            let kk = k - 1 - a;
            assert(t[k] == right[kk]);
            assert(is_internal(right, kk));
            let r = kk + 2 + right[kk + 1].descendant_count;
            assert(r < b);
            assert(t[k + 1] == right[kk + 1]);
            assert(t[r + 1 + a] == right[r]);
        }
    }
}

proof fn lemma_join_leaf_tiling<B>(
    root: BoundingBox<B>,
    left: Seq<BoundingBox<B>>,
    right: Seq<BoundingBox<B>>,
    start: int,
    mid: int,
    end: int,
)
    requires
        join_shape(root, left, right, start, mid, end),
        leaf_tiling(left),
        leaf_tiling(right),
    ensures
        leaf_tiling(seq![root] + left + right),
{
    reveal(leaf_tiling);
    lemma_join_index(root, left, right);
    let t = seq![root] + left + right;
    let a = left.len() as int;
    let b = right.len() as int;
    assert forall|k: int|
        0 <= k && k + 1 < t.len() && #[trigger] t[k].descendant_count == 0 implies t[k
        + 1].start_index == t[k].end_index by {
        if 1 <= k < a {
            assert(left[k - 1].descendant_count == 0);
            assert(t[k + 1] == left[k]);
        } else if k == a {
            assert(t[k] == left[a - 1]);
            assert(t[k + 1] == right[0]);
        } else if k > a {
            assert(right[k - 1 - a].descendant_count == 0);
            assert(t[k + 1] == right[k - a]);
        }
    }
    assert(t[t.len() - 1] == right[b - 1]);
}

/// Hanging two well-formed subtrees over adjacent ranges below a new root
/// gives a well-formed tree over the joined range.
proof fn lemma_join<B>(
    root: BoundingBox<B>,
    left: Seq<BoundingBox<B>>,
    right: Seq<BoundingBox<B>>,
    start: int,
    mid: int,
    end: int,
)
    requires
        well_formed(left, start, mid),
        well_formed(right, mid, end),
        root.start_index == start,
        root.end_index == end,
        root.descendant_count == left.len() + right.len(),
    ensures
        well_formed(seq![root] + left + right, start, end),
        (seq![root] + left + right)[1] == left[0],
        last(seq![root] + left + right, 1) + 1 == left.len() + 1,
        (seq![root] + left + right)[left.len() as int + 1] == right[0],
        (seq![root] + left + right).subrange(1, left.len() as int + 1) == left,
        (seq![root] + left + right).subrange(
            left.len() as int + 1,
            (left.len() + right.len() + 1) as int,
        ) == right,
{
    let t = seq![root] + left + right;
    let a = left.len() as int;
    let b = right.len() as int;
    assert(t.subrange(1, a + 1) =~= left);
    assert(t.subrange(a + 1, a + b + 1) =~= right);
    assert forall|i: int| 1 <= i <= a implies #[trigger] t[i] == left[i - 1] by {}
    assert forall|i: int| a < i < t.len() implies #[trigger] t[i] == right[i - 1 - a] by {}
    assert(last(left, 0) == a - 1);
    assert(last(right, 0) == b - 1);
    assert forall|j: int| 0 <= j < t.len() implies #[trigger] last(t, j) < t.len() by {
        if 1 <= j <= a {
            assert(last(left, j - 1) < a);
        } else if j > a {
            assert(last(right, j - 1 - a) < b);
        }
    }
    assert forall|j: int, k: int|
        #![trigger last(t, j), last(t, k)]
        0 <= j < t.len() && j < k <= last(t, j) implies {
            &&& last(t, k) <= last(t, j)
            &&& t[j].start_index <= t[k].start_index
            &&& t[k].end_index <= t[j].end_index
        } by {
        if j == 0 {
            if k <= a {
                assert(last(left, k - 1) < a);
                if k > 1 {
                    assert(last(left, 0) >= k - 1);
                    assert(last(left, k - 1) <= last(left, 0));
                }
            } else {
                assert(last(right, k - 1 - a) < b);
                if k > a + 1 {
                    assert(last(right, 0) >= k - 1 - a);
                    assert(last(right, k - 1 - a) <= last(right, 0));
                }
            }
        } else if j <= a {
            assert(last(left, j - 1) < a);
            assert(last(left, k - 1) <= last(left, j - 1));
        } else {
            assert(last(right, j - 1 - a) < b);
            assert(last(right, k - 1 - a) <= last(right, j - 1 - a));
        }
    }
    assert(nested(t));
    assert forall|p: int| start <= p < end implies #[trigger] in_some_leaf(t, p) by {
        if p < mid {
            assert(in_some_leaf(left, p));
            let l = choose|l: int| #[trigger] is_leaf(left, l) && covers(left, l, p);
            assert(is_leaf(t, l + 1) && covers(t, l + 1, p));
        } else {
            assert(in_some_leaf(right, p));
            let l = choose|l: int| #[trigger] is_leaf(right, l) && covers(right, l, p);
            assert(is_leaf(t, l + 1 + a) && covers(t, l + 1 + a, p));
        }
    }
    assert forall|l1: int, l2: int, p: int|
        is_leaf(t, l1) && is_leaf(t, l2) && #[trigger] covers(t, l1, p) && #[trigger] covers(
            t,
            l2,
            p,
        ) implies l1 == l2 by {
        if 1 <= l1 <= a {
            lemma_within_root(left, start, mid, l1 - 1);
        } else if l1 > a {
            lemma_within_root(right, mid, end, l1 - 1 - a);
        }
        if 1 <= l2 <= a {
            lemma_within_root(left, start, mid, l2 - 1);
            if 1 <= l1 <= a {
                assert(covers(left, l1 - 1, p) && covers(left, l2 - 1, p));
            }
        } else if l2 > a {
            lemma_within_root(right, mid, end, l2 - 1 - a);
            if l1 > a {
                assert(covers(right, l1 - 1 - a, p) && covers(right, l2 - 1 - a, p));
            }
        }
    }
    assert forall|j: int| 0 <= j < t.len() implies #[trigger] t[j].start_index
        < t[j].end_index by {
        if 1 <= j <= a {
            assert(left[j - 1].start_index < left[j - 1].end_index);
        } else if j > a {
            assert(right[j - 1 - a].start_index < right[j - 1 - a].end_index);
        }
    }
}

/// Builds the hierarchy over the primitives `[start, end)`, whose root gets
/// `bounds`.
///
/// A range of at most `BVH_LEAF_MAX` primitives becomes a single leaf.
/// Otherwise `split(start, end)` arranges the range and returns the point
/// where it is cut and the bounds of the two halves; both halves are then
/// built in turn and stored after the root, the left one first, and the
/// root's `descendant_count` is the number of nodes below it. A point that
/// does not lie strictly inside the range is replaced by its middle.
pub fn make_bvh<B, F>(split: &F, bounds: B, start: usize, end: usize) -> (tree: Vec<
    BoundingBox<B>,
>) where F: Fn(usize, usize) -> (usize, B, B)
    requires
        start < end <= u32::MAX,
        end - start <= BVH_PRIMITIVES_MAX,
        forall|s: usize, e: usize| start <= s < e <= end ==> #[trigger] split.requires((s, e)),
    ensures
        well_formed(tree@, start as int, end as int),
        tree[0].bounds == bounds,
        end - start <= BVH_LEAF_MAX <==> tree.len() == 1,
        built_by(*split, tree@, start as int, end as int),
        preorder_layout(tree@),
    decreases end - start,
{
    if end - start <= BVH_LEAF_MAX {
        let mut tree: Vec<BoundingBox<B>> = Vec::new();
        tree.push(
            BoundingBox {
                start_index: start as u32,
                end_index: end as u32,
                bounds,
                descendant_count: 0,
            },
        );
        proof {
            assert forall|p: int| start <= p < end implies #[trigger] in_some_leaf(tree@, p) by {
                assert(is_leaf(tree@, 0) && covers(tree@, 0, p));
            }
            reveal(leaf_rule);
            reveal(child_layout);
            reveal(leaf_tiling);
        }
        return tree;
    }
    let chosen = split(start, end);
    let ghost result = chosen;
    let (point, left_bounds, right_bounds) = chosen;
    let mid: usize = if start < point && point < end {
        point
    } else {
        start + (end - start) / 2
    };
    let mut left = make_bvh(split, left_bounds, start, mid);
    let mut right = make_bvh(split, right_bounds, mid, end);
    let root = BoundingBox {
        start_index: start as u32,
        end_index: end as u32,
        bounds,
        descendant_count: (left.len() + right.len()) as u32,
    };
    let ghost root_view = root;
    let ghost left_view = left@;
    let ghost right_view = right@;
    proof {
        lemma_join(root_view, left_view, right_view, start as int, mid as int, end as int);
        assert(last(left_view, 0) == left_view.len() - 1);
        assert(last(right_view, 0) == right_view.len() - 1);
        assert(join_shape(root_view, left_view, right_view, start as int, mid as int, end as int));
        lemma_join_leaf_rule(root_view, left_view, right_view, start as int, mid as int, end as int);
        lemma_join_child_layout(root_view, left_view, right_view, start as int, mid as int, end as int);
        lemma_join_leaf_tiling(root_view, left_view, right_view, start as int, mid as int, end as int);
    }
    let mut tree: Vec<BoundingBox<B>> = Vec::new();
    tree.push(root);
    tree.append(&mut left);
    tree.append(&mut right);
    proof {
        assert(tree@ == seq![root_view] + left_view + right_view);
        assert(split.ensures((start, end), result));
        assert(tree@[1] == left_view[0]);
        assert(tree@[1].end_index == mid);
        assert(last(tree@, 1) + 1 == left_view.len() + 1);
        assert(tree@[left_view.len() as int + 1] == right_view[0]);
        assert(result.0 == point && result.1 == left_view[0].bounds && result.2
            == right_view[0].bounds);
        lemma_follows_split(*split, tree@, start as int, end as int, result);
    }
    tree
}

/// Every node on the path from the root to `l` was reported hit.
pub open spec fn path_reported_hit<B, F: Fn(usize) -> bool>(
    box_hit: F,
    nodes: Seq<BoundingBox<B>>,
    l: int,
) -> bool {
    forall|j: int| #[trigger] is_ancestor(nodes, j, l) ==> box_hit.ensures((j as usize,), true)
}

/// Some node on the path from the root to `l` was reported missed.
pub open spec fn path_reported_missed<B, F: Fn(usize) -> bool>(
    box_hit: F,
    nodes: Seq<BoundingBox<B>>,
    l: int,
) -> bool {
    exists|j: int| #[trigger] is_ancestor(nodes, j, l) && box_hit.ensures((j as usize,), false)
}

/// `leaves` is what traversing `nodes` with the box test `box_hit` yields:
/// in increasing order, the leaves whose whole root path was reported hit;
/// every leaf left out has a node on its root path that was reported missed.
pub open spec fn traversal_result<B, F: Fn(usize) -> bool>(
    nodes: Seq<BoundingBox<B>>,
    box_hit: F,
    leaves: Seq<usize>,
) -> bool {
    &&& forall|k: int|
        0 <= k < leaves.len() ==> is_leaf(nodes, #[trigger] leaves[k] as int)
            && path_reported_hit(box_hit, nodes, leaves[k] as int)
    &&& forall|k1: int, k2: int|
        0 <= k1 < k2 < leaves.len() ==> #[trigger] leaves[k1] < #[trigger] leaves[k2]
    &&& forall|l: int|
        #[trigger] is_leaf(nodes, l) && !leaves.contains(l as usize) ==> path_reported_missed(
            box_hit,
            nodes,
            l,
        )
}

/// Walks the flattened hierarchy without a stack and returns the leaves
/// whose primitives must be tested against a ray.
///
/// `box_hit(i)` tells whether the ray meets the bounds of node `i`. A node
/// that is missed is skipped together with its whole subtree, by advancing
/// past its `descendant_count` slots; an internal node that is hit is
/// entered; a leaf that is hit is listed. Each node is looked at at most once.
pub fn traverse_bvh<B, F>(bvh: &Vec<BoundingBox<B>>, count: usize, box_hit: F) -> (leaves: Vec<
    usize,
>) where F: Fn(usize) -> bool
    requires
        well_formed(bvh@, 0, count as int),
        forall|i: usize| i < bvh.len() ==> #[trigger] box_hit.requires((i,)),
    ensures
        traversal_result(bvh@, box_hit, leaves@),
{
    let ghost nodes = bvh@;
    let mut leaves: Vec<usize> = Vec::new();
    let mut i: usize = 0;
    while i < bvh.len()
        invariant
            nodes == bvh@,
            well_formed(nodes, 0, count as int),
            forall|n: usize| n < bvh.len() ==> #[trigger] box_hit.requires((n,)),
            i <= bvh.len(),
            forall|j: int|
                #[trigger] is_ancestor(nodes, j, i as int) && j < i ==> box_hit.ensures(
                    (j as usize,),
                    true,
                ),
            forall|k: int|
                0 <= k < leaves.len() ==> #[trigger] leaves[k] < i && is_leaf(
                    nodes,
                    leaves[k] as int,
                ) && path_reported_hit(box_hit, nodes, leaves[k] as int),
            forall|k1: int, k2: int|
                0 <= k1 < k2 < leaves.len() ==> #[trigger] leaves[k1] < #[trigger] leaves[k2],
            forall|l: int|
                0 <= l < i && #[trigger] is_leaf(nodes, l) && !leaves@.contains(l as usize)
                    ==> path_reported_missed(box_hit, nodes, l),
        decreases bvh.len() - i,
    {
        let hit = box_hit(i);
        let skip = bvh[i].descendant_count;
        let ghost old_i = i as int;
        let ghost old_leaves = leaves@;
        assert(last(nodes, old_i) < nodes.len());
        if !hit {
            i = i + skip as usize + 1;
            proof {
                assert forall|l: int|
                    0 <= l < i && #[trigger] is_leaf(nodes, l) && !leaves@.contains(
                        l as usize,
                    ) implies path_reported_missed(box_hit, nodes, l) by {
                    if l >= old_i {
                        assert(is_ancestor(nodes, old_i, l));
                    }
                }
                assert forall|j: int|
                    #[trigger] is_ancestor(nodes, j, i as int) && j < i implies box_hit.ensures(
                        (j as usize,),
                        true,
                    ) by {
                    if j > old_i {
                        assert(last(nodes, j) <= last(nodes, old_i));
                    } else if j < old_i {
                        assert(is_ancestor(nodes, j, old_i));
                    }
                }
            }
        } else if skip > 0 {
            i = i + 1;
            proof {
                assert forall|j: int|
                    #[trigger] is_ancestor(nodes, j, i as int) && j < i implies box_hit.ensures(
                        (j as usize,),
                        true,
                    ) by {
                    if j < old_i {
                        assert(is_ancestor(nodes, j, old_i));
                    }
                }
            }
        } else {
            leaves.push(i);
            proof {
                assert forall|j: int| #[trigger] is_ancestor(nodes, j, old_i) implies box_hit.ensures(
                    (j as usize,),
                    true,
                ) by {}
                assert(leaves@[leaves.len() - 1] == old_i);
                assert forall|k: int| 0 <= k < old_leaves.len() implies leaves@[k] == #[trigger] old_leaves[k] by {}
                assert forall|l: int|
                    0 <= l <= old_i && #[trigger] is_leaf(nodes, l) && !leaves@.contains(
                        l as usize,
                    ) implies path_reported_missed(box_hit, nodes, l) by {
                    if l == old_i {
                        assert(leaves@.contains(l as usize));
                    } else if old_leaves.contains(l as usize) {
                        let k = choose|k: int| 0 <= k < old_leaves.len() && old_leaves[k] == l as usize;
                        assert(leaves@[k] == l as usize);
                    }
                }
            }
            i = i + 1;
            proof {
                assert forall|j: int|
                    #[trigger] is_ancestor(nodes, j, i as int) && j < i implies box_hit.ensures(
                        (j as usize,),
                        true,
                    ) by {
                    if j < old_i {
                        assert(is_ancestor(nodes, j, old_i));
                    }
                }
            }
        }
    }
    leaves
}

/// Whether primitive `q` lies in the range of one of the listed leaves.
pub open spec fn tested<B>(nodes: Seq<BoundingBox<B>>, leaves: Seq<usize>, q: int) -> bool {
    exists|k: int| 0 <= k < leaves.len() && covers(nodes, #[trigger] leaves[k] as int, q)
}

/// Traversal agrees with a scan over all primitives.
///
/// Let `hits` hold of the primitives that a ray meets, and let the box test
/// report no miss for a node whose range holds such a primitive (as is the
/// case when each node's bounds enclose those of its primitives). Then the
/// primitives of the listed leaves that the ray meets are exactly the
/// primitives of the whole mesh that it meets, so the closest hit among the
/// tested primitives is the closest hit of an exhaustive scan. No primitive
/// is tested twice.
pub proof fn lemma_traversal_matches_scan<B, F: Fn(usize) -> bool>(
    nodes: Seq<BoundingBox<B>>,
    count: nat,
    box_hit: F,
    leaves: Seq<usize>,
    hits: spec_fn(int) -> bool,
)
    requires
        well_formed(nodes, 0, count as int),
        traversal_result(nodes, box_hit, leaves),
        forall|q: int, j: int|
            0 <= j < nodes.len() && hits(q) && #[trigger] covers(nodes, j, q)
                ==> !box_hit.ensures((j as usize,), false),
    ensures
        Set::new(|q: int| tested(nodes, leaves, q) && hits(q)) == Set::new(
            |q: int| 0 <= q < count && hits(q),
        ),
        forall|k1: int, k2: int, q: int|
            0 <= k1 < k2 < leaves.len() && #[trigger] covers(nodes, leaves[k1] as int, q)
                ==> !#[trigger] covers(nodes, leaves[k2] as int, q),
{
    assert forall|k1: int, k2: int, q: int|
        0 <= k1 < k2 < leaves.len() && #[trigger] covers(nodes, leaves[k1] as int, q) implies !#[trigger] covers(
            nodes,
            leaves[k2] as int,
            q,
        ) by {
        assert(leaves[k1] < leaves[k2]);
        assert(is_leaf(nodes, leaves[k1] as int) && is_leaf(nodes, leaves[k2] as int));
    }
    assert forall|q: int| tested(nodes, leaves, q) && hits(q) implies 0 <= q < count by {
        let k = choose|k: int| 0 <= k < leaves.len() && covers(nodes, #[trigger] leaves[k] as int, q);
        let l = leaves[k] as int;
        assert(is_leaf(nodes, l));
        if l > 0 {
            assert(last(nodes, 0) >= l);
            assert(last(nodes, l) <= last(nodes, 0));
        }
    }
    assert forall|q: int| 0 <= q < count && hits(q) implies tested(nodes, leaves, q) by {
        assert(in_some_leaf(nodes, q));
        let l = choose|l: int| #[trigger] is_leaf(nodes, l) && covers(nodes, l, q);
        if !leaves.contains(l as usize) {
            assert(path_reported_missed(box_hit, nodes, l));
            let j = choose|j: int|
                #[trigger] is_ancestor(nodes, j, l) && box_hit.ensures((j as usize,), false);
            if j < l {
                assert(last(nodes, j) >= l);
                assert(last(nodes, l) <= last(nodes, j));
            }
            assert(covers(nodes, j, q));
        }
        let k = choose|k: int| 0 <= k < leaves.len() && leaves[k] == l as usize;
        assert(covers(nodes, leaves[k] as int, q));
    }
    assert(Set::new(|q: int| tested(nodes, leaves, q) && hits(q)) =~= Set::new(
        |q: int| 0 <= q < count && hits(q),
    ));
}

} // verus!
