use vstd::prelude::*;
use std::ops::Range;
use crate::walk_log::{LoggedVisitor, VisitorCall};

verus! {

/// A leaf of the build tree: a contiguous run of ordered primitives.
pub struct BvhTreeNodeLeaf<B> {
    pub bounds: B,
    pub depth: usize,
    pub range: Range<usize>,
}

/// An interior node of the build tree with its two subtrees.
pub struct BvhTreeNodeInterior<B> {
    pub bounds: B,
    pub depth: usize,
    pub split_axis: usize,
    pub left: Box<BvhTreeNode<B>>,
    pub right: Box<BvhTreeNode<B>>,
}

/// Node of the pointer-based tree produced while splitting.
pub enum BvhTreeNode<B> {
    Leaf(BvhTreeNodeLeaf<B>),
    Interior(BvhTreeNodeInterior<B>),
}

/// Node of the flattened (depth-first) layout.
/// For a leaf, `index` is the first primitive and `primitive_count` is non-zero;
/// for an interior node, `primitive_count` is zero, the left child follows it
/// directly and `index` is the position of the right child.
pub struct BvhNode<B> {
    pub bounds: B,
    pub index: u32,
    pub primitive_count: u16,
    pub depth: u8,
    pub split_axis: u8,
}

/// Statistics gathered while flattening.
pub struct BvhState {
    pub leaf_node_count: usize,
    pub max_leaf_node_primitive_count: usize,
    pub max_leaf_node_depth: usize,
}

pub open spec fn max_nat(a: int, b: int) -> int {
    if a >= b {
        a
    } else {
        b
    }
}

impl<B> BvhTreeNode<B> {
    /// Number of nodes of the tree.
    pub open spec fn size(self) -> nat
        decreases self,
    {
        match self {
            BvhTreeNode::Leaf(_) => 1,
            BvhTreeNode::Interior(i) => 1 + i.left.size() + i.right.size(),
        }
    }

    /// Number of leaves of the tree.
    pub open spec fn leaf_count(self) -> nat
        decreases self,
    {
        match self {
            BvhTreeNode::Leaf(_) => 1,
            BvhTreeNode::Interior(i) => i.left.leaf_count() + i.right.leaf_count(),
        }
    }

    /// Largest primitive count of a leaf.
    pub open spec fn max_leaf_len(self) -> int
        decreases self,
    {
        match self {
            BvhTreeNode::Leaf(l) => l.range.end - l.range.start,
            BvhTreeNode::Interior(i) => max_nat(i.left.max_leaf_len(), i.right.max_leaf_len()),
        }
    }

    /// Largest depth of a leaf.
    pub open spec fn max_leaf_depth(self) -> int
        decreases self,
    {
        match self {
            BvhTreeNode::Leaf(l) => l.depth as int,
            BvhTreeNode::Interior(i) => max_nat(i.left.max_leaf_depth(), i.right.max_leaf_depth()),
        }
    }

    /// Every leaf range is well ordered and its length fits a `u16`.
    pub open spec fn leaves_fit(self) -> bool
        decreases self,
    {
        match self {
            BvhTreeNode::Leaf(l) => l.range.start <= l.range.end && l.range.end - l.range.start
                <= u16::MAX,
            BvhTreeNode::Interior(i) => i.left.leaves_fit() && i.right.leaves_fit(),
        }
    }

    /// Depth-first layout of the tree when its root is stored at position `base`.
    pub open spec fn flatten(self, base: int) -> Seq<BvhNode<B>>
        decreases self,
    {
        match self {
            BvhTreeNode::Leaf(l) => seq![
                BvhNode {
                    bounds: l.bounds,
                    index: l.range.start as u32,
                    primitive_count: (l.range.end - l.range.start) as u16,
                    depth: l.depth as u8,
                    split_axis: 0,
                },
            ],
            BvhTreeNode::Interior(i) => {
                let right_base = base + 1 + i.left.size();
                seq![
                    BvhNode {
                        bounds: i.bounds,
                        index: right_base as u32,
                        primitive_count: 0,
                        depth: i.depth as u8,
                        split_axis: i.split_axis as u8,
                    },
                ] + i.left.flatten(base + 1) + i.right.flatten(right_base)
            },
        }
    }
}

pub proof fn lemma_flatten_len<B>(t: BvhTreeNode<B>, base: int)
    ensures
        t.flatten(base).len() == t.size(),
    decreases t,
{
    match t {
        BvhTreeNode::Leaf(_) => {},
        BvhTreeNode::Interior(i) => {
            lemma_flatten_len(*i.left, base + 1);
            lemma_flatten_len(*i.right, base + 1 + i.left.size());
        },
    }
}

impl BvhState {
    pub fn new() -> (s: Self)
        ensures
            s.leaf_node_count == 0,
            s.max_leaf_node_primitive_count == 0,
            s.max_leaf_node_depth == 0,
    {
        BvhState { leaf_node_count: 0, max_leaf_node_primitive_count: 0, max_leaf_node_depth: 0 }
    }

    /// Records one more leaf.
    pub fn add_leaf<B>(&mut self, leaf: &BvhTreeNodeLeaf<B>)
        requires
            old(self).leaf_node_count < usize::MAX,
            leaf.range.start <= leaf.range.end,
        ensures
            final(self).leaf_node_count == old(self).leaf_node_count + 1,
            final(self).max_leaf_node_primitive_count == max_nat(
                old(self).max_leaf_node_primitive_count as int,
                leaf.range.end - leaf.range.start,
            ),
            final(self).max_leaf_node_depth == max_nat(
                old(self).max_leaf_node_depth as int,
                leaf.depth as int,
            ),
    {
        self.leaf_node_count = self.leaf_node_count + 1;
        let len = leaf.range.end - leaf.range.start;
        if len > self.max_leaf_node_primitive_count {
            self.max_leaf_node_primitive_count = len;
        }
        if leaf.depth > self.max_leaf_node_depth {
            self.max_leaf_node_depth = leaf.depth;
        }
    }
}

/// A bounding volume hierarchy over primitives `P` with bounds `B`, stored flattened.
pub struct Bvh<P, B> {
    flattened_nodes: Vec<BvhNode<B>>,
    ordered_primitives: Vec<P>,
    tree: Ghost<Option<BvhTreeNode<B>>>,
}

impl<P, B> Bvh<P, B> {
    /// The build tree the nodes were flattened from.
    pub closed spec fn spec_tree(&self) -> Option<BvhTreeNode<B>> {
        self.tree@
    }

    pub closed spec fn spec_nodes(&self) -> Seq<BvhNode<B>> {
        self.flattened_nodes@
    }

    pub closed spec fn spec_primitives(&self) -> Seq<P> {
        self.ordered_primitives@
    }

    /// Appends the depth-first layout of `tree_node` and returns the position of its root.
    fn recursive_flatten(&mut self, tree_node: BvhTreeNode<B>, state: &mut BvhState) -> (index:
        usize)
        requires
            tree_node.leaves_fit(),
            old(state).leaf_node_count + tree_node.leaf_count() <= usize::MAX,
            old(self).spec_nodes().len() + tree_node.size() <= usize::MAX,
        ensures
            index == old(self).spec_nodes().len(),
            final(self).spec_nodes() == old(self).spec_nodes() + tree_node.flatten(index as int),
            final(self).spec_primitives() == old(self).spec_primitives(),
            final(self).spec_tree() == old(self).spec_tree(),
            final(state).leaf_node_count == old(state).leaf_node_count + tree_node.leaf_count(),
            final(state).max_leaf_node_primitive_count == max_nat(
                old(state).max_leaf_node_primitive_count as int,
                tree_node.max_leaf_len(),
            ),
            final(state).max_leaf_node_depth == max_nat(
                old(state).max_leaf_node_depth as int,
                tree_node.max_leaf_depth(),
            ),
        decreases tree_node,
    {
        let ghost t = tree_node;
        match tree_node {
            BvhTreeNode::Leaf(leaf) => {
                state.add_leaf(&leaf);
                let index = self.flattened_nodes.len();
                let count = leaf.range.end - leaf.range.start;
                self.flattened_nodes.push(
                    BvhNode {
                        bounds: leaf.bounds,
                        index: leaf.range.start as u32,
                        primitive_count: count as u16,
                        depth: leaf.depth as u8,
                        split_axis: 0,
                    },
                );
                index
            },
            BvhTreeNode::Interior(interior) => {
                let index = self.flattened_nodes.len();
                self.flattened_nodes.push(
                    BvhNode {
                        bounds: interior.bounds,
                        index: 0,
                        primitive_count: 0,
                        depth: interior.depth as u8,
                        split_axis: interior.split_axis as u8,
                    },
                );
                let ghost left = *interior.left;
                let ghost right = *interior.right;
                proof {
                    lemma_flatten_len(left, index + 1);
                }
                self.recursive_flatten(*interior.left, state);
                let right_index = self.recursive_flatten(*interior.right, state);
                self.flattened_nodes[index].index = right_index as u32;
                assert(self.flattened_nodes@ =~= old(self).flattened_nodes@ + t.flatten(
                    index as int,
                ));
                index
            },
        }
    }
}


/// `perm` maps each position of a sequence of length `n` to a distinct position of the original.
pub open spec fn is_permutation(perm: Seq<int>, n: int) -> bool {
    &&& perm.len() == n
    &&& forall|i: int| 0 <= i < n ==> 0 <= #[trigger] perm[i] < n
    &&& forall|i: int, j: int| 0 <= i < j < n ==> perm[i] != perm[j]
}

/// Number of bucket indices in `s` below `split_index`.
pub open spec fn count_below(s: Seq<u32>, split_index: u32) -> nat
    decreases s.len(),
{
    if s.len() == 0 {
        0
    } else {
        count_below(s.drop_last(), split_index) + if s.last() < split_index {
            1nat
        } else {
            0nat
        }
    }
}

proof fn lemma_count_below_concat(a: Seq<u32>, b: Seq<u32>, split_index: u32)
    ensures
        count_below(a + b, split_index) == count_below(a, split_index) + count_below(b, split_index),
    decreases b.len(),
{
    if b.len() == 0 {
        assert(a + b =~= a);
    } else {
        lemma_count_below_concat(a, b.drop_last(), split_index);
        assert((a + b).drop_last() =~= a + b.drop_last());
    }
}

proof fn lemma_count_below_swap(s: Seq<u32>, i: int, j: int, split_index: u32)
    requires
        0 <= i < j < s.len(),
    ensures
        count_below(s.update(i, s[j]).update(j, s[i]), split_index) == count_below(s, split_index),
{
    let t = s.update(i, s[j]).update(j, s[i]);
    let a = s.subrange(0, i);
    let m = s.subrange(i + 1, j);
    let z = s.subrange(j + 1, s.len() as int);
    assert(s =~= a + seq![s[i]] + m + seq![s[j]] + z);
    assert(t =~= a + seq![s[j]] + m + seq![s[i]] + z);
    lemma_count_below_concat(a + seq![s[i]] + m + seq![s[j]], z, split_index);
    lemma_count_below_concat(a + seq![s[i]] + m, seq![s[j]], split_index);
    lemma_count_below_concat(a + seq![s[i]], m, split_index);
    lemma_count_below_concat(a, seq![s[i]], split_index);
    lemma_count_below_concat(a + seq![s[j]] + m + seq![s[i]], z, split_index);
    lemma_count_below_concat(a + seq![s[j]] + m, seq![s[i]], split_index);
    lemma_count_below_concat(a + seq![s[j]], m, split_index);
    lemma_count_below_concat(a, seq![s[j]], split_index);
    assert(seq![s[i]].drop_last() =~= Seq::<u32>::empty());
    assert(seq![s[j]].drop_last() =~= Seq::<u32>::empty());
}

proof fn lemma_count_below_partitioned(s: Seq<u32>, mid: int, split_index: u32)
    requires
        0 <= mid <= s.len(),
        forall|k: int| 0 <= k < mid ==> #[trigger] s[k] < split_index,
        forall|k: int| mid <= k < s.len() ==> #[trigger] s[k] >= split_index,
    ensures
        count_below(s, split_index) == mid,
    decreases s.len(),
{
    if s.len() > 0 {
        if mid == s.len() {
            lemma_count_below_partitioned(s.drop_last(), mid - 1, split_index);
        } else {
            lemma_count_below_partitioned(s.drop_last(), mid, split_index);
        }
    }
}

/// Exchanges the elements at positions `i` and `j` of `s`.
fn swap_elements<T>(s: &mut [T], i: usize, j: usize)
    requires
        i < j < old(s)@.len(),
    ensures
        final(s)@ == old(s)@.update(i as int, old(s)@[j as int]).update(
            j as int,
            old(s)@[i as int],
        ),
{
    let (a, b) = s.split_at_mut(j);
    std::mem::swap(&mut a[i], &mut b[0]);
}


/// Reorders `primitives` (with their bucket indices in `buckets`, kept in step) so that
/// those whose bucket lies below `split_index` come first; returns how many there are.
pub fn partition_by_bucket<P>(primitives: &mut [P], buckets: &mut [u32], split_index: u32) -> (mid:
    usize)
    requires
        old(primitives)@.len() == old(buckets)@.len(),
    ensures
        final(primitives)@.len() == old(primitives)@.len(),
        final(buckets)@.len() == old(buckets)@.len(),
        mid <= final(buckets)@.len(),
        mid == count_below(old(buckets)@, split_index),
        forall|k: int| 0 <= k < mid ==> #[trigger] final(buckets)@[k] < split_index,
        forall|k: int| mid <= k < final(buckets)@.len() ==> #[trigger] final(buckets)@[k]
            >= split_index,
        exists|perm: Seq<int>|
            #![trigger is_permutation(perm, old(primitives)@.len() as int)]
            {
                &&& is_permutation(perm, old(primitives)@.len() as int)
                &&& forall|k: int|
                    0 <= k < perm.len() ==> #[trigger] final(primitives)@[k] == old(
                        primitives,
                    )@[perm[k]] && final(buckets)@[k] == old(buckets)@[perm[k]]
            },
{
    let n = primitives.len();
    let mut head: usize = 0;
    let mut tail: usize = n;
    let ghost mut perm: Seq<int> = Seq::new(n as nat, |k: int| k);
    while head < tail
        invariant
            head <= tail <= n,
            n == primitives@.len(),
            n == buckets@.len(),
            n == old(primitives)@.len(),
            n == old(buckets)@.len(),
            forall|k: int| 0 <= k < head ==> #[trigger] buckets@[k] < split_index,
            forall|k: int| tail <= k < n ==> #[trigger] buckets@[k] >= split_index,
            is_permutation(perm, n as int),
            count_below(buckets@, split_index) == count_below(old(buckets)@, split_index),
            forall|k: int| 0 <= k < n ==> #[trigger] primitives@[k] == old(primitives)@[perm[k]],
            forall|k: int| 0 <= k < n ==> #[trigger] buckets@[k] == old(buckets)@[perm[k]],
        decreases tail - head,
    {
        let tail_index = tail - 1;
        let head_is_left = buckets[head] < split_index;
        let tail_is_left = buckets[tail_index] < split_index;
        if head_is_left && tail_is_left {
            head = head + 1;
        } else if !head_is_left && !tail_is_left {
            tail = tail - 1;
        } else if head_is_left && !tail_is_left {
            tail = tail - 1;
            head = head + 1;
        } else {
            let ghost old_perm = perm;
            let ghost prev_p = primitives@;
            let ghost prev_b = buckets@;
            let ghost h = head as int;
            let ghost t = tail_index as int;
            swap_elements(primitives, head, tail_index);
            swap_elements(buckets, head, tail_index);
            tail = tail - 1;
            head = head + 1;
            proof {
                lemma_count_below_swap(prev_b, h, t, split_index);
                perm = old_perm.update(h, old_perm[t]).update(t, old_perm[h]);
                assert forall|i: int, j: int| 0 <= i < j < n implies perm[i] != perm[j] by {
                    assert(old_perm[i] != old_perm[j]);
                    if i == h && j == t {
                    } else if i == h {
                        assert(old_perm[t] != old_perm[j]);
                    } else if j == t {
                        assert(old_perm[h] != old_perm[i]);
                    } else if i == t {
                        assert(old_perm[h] != old_perm[j]);
                    } else if j == h {
                        assert(old_perm[t] != old_perm[i]);
                    }
                }
                assert forall|k: int| 0 <= k < n implies #[trigger] primitives@[k] == old(
                    primitives,
                )@[perm[k]] by {
                    if k == h {
                        assert(primitives@[k] == prev_p[t]);
                    } else if k == t {
                        assert(primitives@[k] == prev_p[h]);
                    } else {
                        assert(primitives@[k] == prev_p[k]);
                    }
                }
                assert forall|k: int| 0 <= k < n implies #[trigger] buckets@[k] == old(
                    buckets,
                )@[perm[k]] by {
                    if k == h {
                        assert(buckets@[k] == prev_b[t]);
                    } else if k == t {
                        assert(buckets@[k] == prev_b[h]);
                    } else {
                        assert(buckets@[k] == prev_b[k]);
                    }
                }
            }
        }
    }
    assert(is_permutation(perm, n as int));
    proof {
        lemma_count_below_partitioned(buckets@, head as int, split_index);
    }
    head
}


impl<B> BvhTreeNode<B> {
    /// Number of nodes on the longest path from the root to a leaf.
    pub open spec fn height(self) -> nat
        decreases self,
    {
        match self {
            BvhTreeNode::Leaf(_) => 1,
            BvhTreeNode::Interior(i) => 1 + if i.left.height() >= i.right.height() {
                i.left.height()
            } else {
                i.right.height()
            },
        }
    }

    /// Every interior node splits along one of the three coordinate axes.
    pub open spec fn axes_ok(self) -> bool
        decreases self,
    {
        match self {
            BvhTreeNode::Leaf(_) => true,
            BvhTreeNode::Interior(i) => i.split_axis < 3 && i.left.axes_ok() && i.right.axes_ok(),
        }
    }

    /// First primitive covered by the tree.
    pub open spec fn first_start(self) -> int
        decreases self,
    {
        match self {
            BvhTreeNode::Leaf(l) => l.range.start as int,
            BvhTreeNode::Interior(i) => i.left.first_start(),
        }
    }

    /// One past the last primitive covered by the tree.
    pub open spec fn last_end(self) -> int
        decreases self,
    {
        match self {
            BvhTreeNode::Leaf(l) => l.range.end as int,
            BvhTreeNode::Interior(i) => i.right.last_end(),
        }
    }

    /// A finished build tree: every leaf holds a non-empty run of at most `u16::MAX`
    /// primitives and, read left to right, the leaves cover one contiguous run.
    pub open spec fn well_formed(self) -> bool
        decreases self,
    {
        match self {
            BvhTreeNode::Leaf(l) => l.range.start < l.range.end && l.range.end - l.range.start
                <= u16::MAX,
            BvhTreeNode::Interior(i) => {
                &&& i.left.well_formed()
                &&& i.right.well_formed()
                &&& i.left.last_end() == i.right.first_start()
            },
        }
    }
}

pub proof fn lemma_well_formed_span<B>(t: BvhTreeNode<B>)
    requires
        t.well_formed(),
    ensures
        t.first_start() < t.last_end(),
        t.leaves_fit(),
        t.size() >= 1,
        t.height() >= 1,
        t.leaf_count() <= t.size(),
    decreases t,
{
    match t {
        BvhTreeNode::Leaf(_) => {},
        BvhTreeNode::Interior(i) => {
            lemma_well_formed_span(*i.left);
            lemma_well_formed_span(*i.right);
        },
    }
}

impl<B> BvhTreeNode<B> {
    /// The `k`-th subtree in depth-first order: the tree itself, then the subtrees of its
    /// left child, then those of its right child.
    pub open spec fn subtree_at(self, k: int) -> BvhTreeNode<B>
        decreases self,
    {
        if k <= 0 {
            self
        } else {
            match self {
                BvhTreeNode::Leaf(_) => self,
                BvhTreeNode::Interior(i) => if k <= i.left.size() {
                    i.left.subtree_at(k - 1)
                } else {
                    i.right.subtree_at(k - 1 - i.left.size())
                },
            }
        }
    }

    /// The flattened node of this tree's root when the root is stored at position `p`: a
    /// leaf names its run of primitives, an interior node names the position of its right
    /// child, just after the left subtree.
    pub open spec fn root_node(self, p: int) -> BvhNode<B> {
        match self {
            BvhTreeNode::Leaf(l) => BvhNode {
                bounds: l.bounds,
                index: l.range.start as u32,
                primitive_count: (l.range.end - l.range.start) as u16,
                depth: l.depth as u8,
                split_axis: 0,
            },
            BvhTreeNode::Interior(i) => BvhNode {
                bounds: i.bounds,
                index: (p + 1 + i.left.size()) as u32,
                primitive_count: 0,
                depth: i.depth as u8,
                split_axis: i.split_axis as u8,
            },
        }
    }
}

#[verifier::spinoff_prover]
proof fn lemma_preorder_nodes<B>(t: BvhTreeNode<B>, base: int)
    ensures
        forall|k: int|
            0 <= k < t.size() ==> #[trigger] t.flatten(base)[k] == t.subtree_at(k).root_node(
                base + k,
            ),
    decreases t,
{
    lemma_flatten_len(t, base);
    if let BvhTreeNode::Interior(i) = t {
        let left = *i.left;
        let right = *i.right;
        let ls = left.size() as int;
        let rb = base + 1 + ls;
        lemma_flatten_len(left, base + 1);
        lemma_flatten_len(right, rb);
        lemma_preorder_nodes(left, base + 1);
        lemma_preorder_nodes(right, rb);
        let flat = t.flatten(base);
        assert forall|k: int| 0 <= k < t.size() implies #[trigger] t.flatten(base)[k]
            == t.subtree_at(k).root_node(base + k) by {
            if 1 <= k <= ls {
                assert(flat[k] == left.flatten(base + 1)[k - 1]);
            } else if k > ls {
                assert(flat[k] == right.flatten(rb)[k - 1 - ls]);
            }
        }
    }
}

proof fn lemma_preorder_size_at<B>(t: BvhTreeNode<B>, k: int)
    requires
        0 <= k < t.size(),
    ensures
        k + t.subtree_at(k).size() <= t.size(),
    decreases t,
{
    if k > 0 {
        if let BvhTreeNode::Interior(i) = t {
            if k <= i.left.size() {
                lemma_preorder_size_at(*i.left, k - 1);
            } else {
                lemma_preorder_size_at(*i.right, k - 1 - i.left.size());
            }
        }
    }
}

proof fn lemma_size_positive<B>(t: BvhTreeNode<B>)
    ensures
        t.size() >= 1,
    decreases t,
{
    if let BvhTreeNode::Interior(i) = t {
        lemma_size_positive(*i.left);
        lemma_size_positive(*i.right);
    }
}

#[verifier::spinoff_prover]
proof fn lemma_preorder_child_at<B>(t: BvhTreeNode<B>, k: int)
    requires
        0 <= k < t.size(),
        t.subtree_at(k) is Interior,
    ensures
        t.subtree_at(k + 1) == *t.subtree_at(k)->Interior_0.left,
        t.subtree_at(k + 1 + t.subtree_at(k)->Interior_0.left.size())
            == *t.subtree_at(k)->Interior_0.right,
    decreases t,
{
    if let BvhTreeNode::Interior(i) = t {
        let left = *i.left;
        let right = *i.right;
        let ls = left.size() as int;
        lemma_size_positive(left);
        lemma_size_positive(right);
        if k == 0 {
            assert(t.subtree_at(1) == left.subtree_at(0));
            assert(t.subtree_at(1 + ls) == right.subtree_at(0));
        } else if k <= ls {
            let sub = left.subtree_at(k - 1);
            assert(t.subtree_at(k) == sub);
            let j = sub->Interior_0;
            lemma_size_positive(*j.left);
            lemma_size_positive(*j.right);
            lemma_preorder_child_at(left, k - 1);
            lemma_preorder_size_at(left, k - 1);
            assert(t.subtree_at(k + 1) == left.subtree_at(k));
            assert(t.subtree_at(k + 1 + j.left.size()) == left.subtree_at(k + j.left.size()));
        } else {
            let sub = right.subtree_at(k - 1 - ls);
            assert(t.subtree_at(k) == sub);
            let j = sub->Interior_0;
            lemma_preorder_child_at(right, k - 1 - ls);
            assert(t.subtree_at(k + 1) == right.subtree_at(k - ls));
            assert(t.subtree_at(k + 1 + j.left.size()) == right.subtree_at(k - ls + j.left.size()));
        }
    }
}

/// Flattening stores the subtrees in depth-first (pre-order) order: position `base + k`
/// holds the root node of the `k`-th subtree, which occupies positions `base + k` up to
/// `base + k + size`; an interior subtree at `k` has its left child at `k + 1` and its right
/// child at `k + 1 +` the size of the left child.
pub proof fn lemma_flatten_preorder<B>(t: BvhTreeNode<B>, base: int)
    ensures
        t.flatten(base).len() == t.size(),
        forall|k: int|
            0 <= k < t.size() ==> #[trigger] t.flatten(base)[k] == t.subtree_at(k).root_node(
                base + k,
            ),
        forall|k: int| 0 <= k < t.size() ==> k + (#[trigger] t.subtree_at(k)).size() <= t.size(),
        forall|k: int|
            0 <= k < t.size() && (#[trigger] t.subtree_at(k)) is Interior ==> {
                let i = t.subtree_at(k)->Interior_0;
                &&& t.subtree_at(k + 1) == *i.left
                &&& t.subtree_at(k + 1 + i.left.size()) == *i.right
            },
{
    lemma_flatten_len(t, base);
    lemma_preorder_nodes(t, base);
    assert forall|k: int| 0 <= k < t.size() implies k + (#[trigger] t.subtree_at(k)).size()
        <= t.size() by {
        lemma_preorder_size_at(t, k);
    }
    assert forall|k: int| 0 <= k < t.size() && (#[trigger] t.subtree_at(k)) is Interior implies {
        let i = t.subtree_at(k)->Interior_0;
        &&& t.subtree_at(k + 1) == *i.left
        &&& t.subtree_at(k + 1 + i.left.size()) == *i.right
    } by {
        lemma_preorder_child_at(t, k);
    }
}

/// The flattened layout can be walked without leaving the node array or the primitive
/// run: an interior node at position `p` has its left child at `p + 1` and its right
/// child at `index`, strictly after the whole left subtree; a leaf names a non-empty
/// run of primitives inside the run the tree covers.
pub proof fn lemma_flatten_layout<B>(t: BvhTreeNode<B>, base: int)
    requires
        t.well_formed(),
        0 <= base,
        base + t.size() <= u32::MAX + 1,
        0 <= t.first_start(),
        t.last_end() <= u32::MAX,
    ensures
        t.flatten(base).len() == t.size(),
        forall|k: int|
            0 <= k < t.size() ==> {
                let node = #[trigger] t.flatten(base)[k];
                &&& node.primitive_count == 0 ==> base + k + 1 < node.index < base + t.size()
                &&& node.primitive_count != 0 ==> t.first_start() <= node.index && node.index
                    + node.primitive_count <= t.last_end()
            },
    decreases t,
{
    lemma_flatten_len(t, base);
    lemma_well_formed_span(t);
    match t {
        BvhTreeNode::Leaf(l) => {
            let node = t.flatten(base)[0];
            assert(node.primitive_count == (l.range.end - l.range.start) as u16);
        },
        BvhTreeNode::Interior(i) => {
            let left = *i.left;
            let right = *i.right;
            let rb = base + 1 + left.size();
            lemma_well_formed_span(left);
            lemma_well_formed_span(right);
            lemma_flatten_layout(left, base + 1);
            lemma_flatten_layout(right, rb);
            let flat = t.flatten(base);
            let lf = left.flatten(base + 1);
            let rf = right.flatten(rb);
            assert(flat == seq![flat[0]] + lf + rf);
            assert forall|k: int| 0 <= k < t.size() implies {
                let node = #[trigger] t.flatten(base)[k];
                &&& node.primitive_count == 0 ==> base + k + 1 < node.index < base + t.size()
                &&& node.primitive_count != 0 ==> t.first_start() <= node.index && node.index
                    + node.primitive_count <= t.last_end()
            } by {
                if k == 0 {
                    assert(flat[0].index == rb as u32);
                } else if k < 1 + left.size() {
                    assert(flat[k] == lf[k - 1]);
                    let _ = left.flatten(base + 1)[k - 1];
                } else {
                    assert(flat[k] == rf[k - 1 - left.size()]);
                    let _ = right.flatten(rb)[k - 1 - left.size()];
                }
            }
        },
    }
}


impl<P, B> Bvh<P, B> {
    /// The nodes are the depth-first layout of a finished build tree over all the
    /// primitives, with split axes among the three coordinates, and positions fit a `u32`.
    pub open spec fn wf(&self) -> bool {
        match self.spec_tree() {
            None => self.spec_nodes().len() == 0 && self.spec_primitives().len() == 0,
            Some(t) => {
                &&& t.well_formed()
                &&& t.axes_ok()
                &&& t.first_start() == 0
                &&& t.last_end() == self.spec_primitives().len()
                &&& self.spec_nodes() == t.flatten(0)
                &&& t.size() <= u32::MAX + 1
                &&& self.spec_primitives().len() <= u32::MAX
            },
        }
    }

    /// Every interior node at position `k` has its children at `k + 1` and at `index`,
    /// both inside the node array, and every leaf names a non-empty run of primitives
    /// inside the primitive array.
    pub open spec fn layout_ok(&self) -> bool {
        forall|k: int|
            0 <= k < self.spec_nodes().len() ==> {
                let node = #[trigger] self.spec_nodes()[k];
                &&& node.primitive_count == 0 ==> k + 1 < node.index < self.spec_nodes().len()
                &&& node.primitive_count != 0 ==> node.index + node.primitive_count
                    <= self.spec_primitives().len()
            }
    }

    /// Assembles the hierarchy from the primitives, already reordered by the build, and the
    /// build tree over them (`None` when there are no primitives); also returns the
    /// statistics gathered while flattening.
    pub fn from_tree(ordered_primitives: Vec<P>, root: Option<BvhTreeNode<B>>) -> (r: (
        Self,
        BvhState,
    ))
        requires
            root is None ==> ordered_primitives@.len() == 0,
            root matches Some(t) ==> {
                &&& t.well_formed()
                &&& t.first_start() == 0
                &&& t.last_end() == ordered_primitives@.len()
                &&& t.size() <= usize::MAX
            },
        ensures
            r.0.spec_primitives() == ordered_primitives@,
            r.0.spec_tree() == root,
            (root matches Some(t) ==> t.axes_ok() && t.size() <= u32::MAX + 1
                && ordered_primitives@.len() <= u32::MAX) ==> r.0.wf(),
            root is None ==> r.0.spec_nodes().len() == 0 && r.1.leaf_node_count == 0
                && r.1.max_leaf_node_primitive_count == 0 && r.1.max_leaf_node_depth == 0,
            root matches Some(t) ==> {
                &&& r.0.spec_nodes() == t.flatten(0)
                &&& forall|k: int|
                    0 <= k < t.size() ==> #[trigger] r.0.spec_nodes()[k] == t.subtree_at(
                        k,
                    ).root_node(k)
                &&& r.1.leaf_node_count == t.leaf_count()
                &&& r.1.max_leaf_node_primitive_count == max_nat(0, t.max_leaf_len())
                &&& r.1.max_leaf_node_depth == max_nat(0, t.max_leaf_depth())
                &&& (t.size() <= u32::MAX + 1 && ordered_primitives@.len() <= u32::MAX)
                    ==> r.0.layout_ok()
            },
    {
        let mut bvh = Bvh { flattened_nodes: Vec::new(), ordered_primitives, tree: Ghost(root) };
        let mut state = BvhState::new();
        match root {
            None => {},
            Some(t) => {
                let ghost tg = t;
                proof {
                    lemma_well_formed_span(tg);
                }
                bvh.recursive_flatten(t, &mut state);
                proof {
                    assert(bvh.flattened_nodes@ =~= tg.flatten(0));
                    lemma_flatten_preorder(tg, 0);
                    if tg.size() <= u32::MAX + 1 && bvh.ordered_primitives@.len() <= u32::MAX {
                        lemma_flatten_layout(tg, 0);
                    }
                }
            },
        }
        (bvh, state)
    }

    /// The flattened nodes, root first.
    pub fn nodes(&self) -> (n: &Vec<BvhNode<B>>)
        ensures
            n@ == self.spec_nodes(),
    {
        &self.flattened_nodes
    }

    /// The primitives in the order the leaves refer to them.
    pub fn primitives(&self) -> (p: &Vec<P>)
        ensures
            p@ == self.spec_primitives(),
    {
        &self.ordered_primitives
    }

    /// Bounds of the root node, if there is one.
    pub fn root_bounds(&self) -> (b: Option<&B>)
        ensures
            self.spec_nodes().len() == 0 ==> b is None,
            self.spec_nodes().len() > 0 ==> b == Some(&self.spec_nodes()[0].bounds),
    {
        if self.flattened_nodes.len() == 0 {
            None
        } else {
            Some(&self.flattened_nodes[0].bounds)
        }
    }
}


/// What a ray query does while a hierarchy is walked.
pub trait BvhVisitor<P, B> {
    /// Whether the walk should look inside a node with these bounds.
    fn enters(&mut self, bounds: &B) -> bool;

    /// Tests one primitive of a leaf the walk reached.
    fn visit_primitive(&mut self, primitive: &P);
}

/// `t` is stored, depth first, at positions `p .. p + t.size()` of `nodes`.
pub open spec fn stored_at<B>(nodes: Seq<BvhNode<B>>, t: BvhTreeNode<B>, p: int) -> bool {
    &&& 0 <= p
    &&& p + t.size() <= nodes.len()
    &&& nodes.subrange(p, p + t.size()) == t.flatten(p)
}

/// Primitive `x` lies in the run that `t` covers.
pub open spec fn in_span<B>(t: BvhTreeNode<B>, x: int) -> bool {
    t.first_start() <= x < t.last_end()
}

/// The runs covered by two trees do not meet.
pub open spec fn spans_disjoint<B>(a: BvhTreeNode<B>, b: BvhTreeNode<B>) -> bool {
    a.last_end() <= b.first_start() || b.last_end() <= a.first_start()
}

/// A subtree still to be walked: stored at `p`, at depth `d`, inside the `n` primitives.
pub open spec fn pending_ok<B>(nodes: Seq<BvhNode<B>>, n: int, t: BvhTreeNode<B>, p: int, d: int) -> bool {
    &&& stored_at(nodes, t, p)
    &&& t.well_formed()
    &&& t.axes_ok()
    &&& 1 <= d
    &&& d + t.height() <= 34
    &&& p + t.size() <= u32::MAX + 1
    &&& 0 <= t.first_start()
    &&& t.last_end() <= n
}

pub open spec fn sum_sizes<B>(s: Seq<(BvhTreeNode<B>, int, int)>) -> int
    decreases s.len(),
{
    if s.len() == 0 {
        0
    } else {
        sum_sizes(s.drop_last()) + s.last().0.size()
    }
}

proof fn lemma_stored_leaf<B>(nodes: Seq<BvhNode<B>>, t: BvhTreeNode<B>, p: int)
    requires
        stored_at(nodes, t, p),
        t.well_formed(),
        t is Leaf,
        t.last_end() <= u32::MAX,
    ensures
        nodes[p].primitive_count != 0,
        nodes[p].index == t.first_start(),
        nodes[p].index + nodes[p].primitive_count == t.last_end(),
{
    assert(nodes[p] == nodes.subrange(p, p + t.size())[0]);
}

proof fn lemma_stored_interior<B>(nodes: Seq<BvhNode<B>>, t: BvhTreeNode<B>, p: int)
    requires
        stored_at(nodes, t, p),
        t.well_formed(),
        t.axes_ok(),
        t is Interior,
        p + t.size() <= u32::MAX + 1,
    ensures
        ({
            let i = t->Interior_0;
            let rb = p + 1 + i.left.size();
            &&& nodes[p].primitive_count == 0
            &&& nodes[p].index == rb
            &&& nodes[p].split_axis == i.split_axis
            &&& nodes[p].split_axis < 3
            &&& stored_at(nodes, *i.left, p + 1)
            &&& stored_at(nodes, *i.right, rb)
            &&& t.size() == 1 + i.left.size() + i.right.size()
        }),
{
    let i = t->Interior_0;
    let l = *i.left;
    let r = *i.right;
    let ls = l.size() as int;
    let rb = p + 1 + ls;
    lemma_flatten_len(l, p + 1);
    lemma_flatten_len(r, rb);
    lemma_flatten_len(t, p);
    let f = t.flatten(p);
    assert(nodes[p] == nodes.subrange(p, p + t.size())[0]);
    assert(nodes.subrange(p + 1, rb) =~= f.subrange(1, 1 + ls));
    assert(f.subrange(1, 1 + ls) =~= l.flatten(p + 1));
    assert(nodes.subrange(rb, rb + r.size()) =~= f.subrange(1 + ls, t.size() as int));
    assert(f.subrange(1 + ls, t.size() as int) =~= r.flatten(rb));
}

proof fn lemma_sum_sizes_push<B>(s: Seq<(BvhTreeNode<B>, int, int)>, x: (BvhTreeNode<B>, int, int))
    ensures
        sum_sizes(s.push(x)) == sum_sizes(s) + x.0.size(),
{
    assert(s.push(x).drop_last() =~= s);
}

proof fn lemma_sum_sizes_nonneg<B>(s: Seq<(BvhTreeNode<B>, int, int)>)
    ensures
        sum_sizes(s) >= 0,
    decreases s.len(),
{
    if s.len() > 0 {
        lemma_sum_sizes_nonneg(s.drop_last());
    }
}

/// Bounds on the work of one walk of a hierarchy.
pub open spec fn walk_bounded<P, B>(bvh: &Bvh<P, B>, bounds_tests: int, primitive_tests: int) -> bool {
    &&& 0 <= bounds_tests <= bvh.spec_nodes().len()
    &&& 0 <= primitive_tests <= bvh.spec_primitives().len()
}


proof fn lemma_distinct_bounded(s: Seq<int>, n: int)
    requires
        s.no_duplicates(),
        0 <= n,
        forall|k: int| 0 <= k < s.len() ==> 0 <= #[trigger] s[k] < n,
    ensures
        s.len() <= n,
{
    s.unique_seq_to_set();
    vstd::set_lib::lemma_int_range(0, n);
    assert(s.to_set().subset_of(vstd::set_lib::set_int_range(0, n)));
    vstd::set_lib::lemma_len_subset(s.to_set(), vstd::set_lib::set_int_range(0, n));
}

/// One step of a walk that reached the visitor: the bounds test of the node at a position,
/// with the visitor's answer, or the test of the primitive at a position.
pub enum WalkEvent {
    Test(int, bool),
    Visit(int),
}

/// The visitor call that a walk step makes.
pub open spec fn event_call<P, B>(
    nodes: Seq<BvhNode<B>>,
    primitives: Seq<P>,
    e: WalkEvent,
) -> VisitorCall<P, B> {
    match e {
        WalkEvent::Test(p, entered) => VisitorCall::Enters(nodes[p].bounds, entered),
        WalkEvent::Visit(k) => VisitorCall::Visit(primitives[k]),
    }
}

/// The visitor calls that a sequence of walk steps makes, in order.
pub open spec fn event_calls<P, B>(
    nodes: Seq<BvhNode<B>>,
    primitives: Seq<P>,
    events: Seq<WalkEvent>,
) -> Seq<VisitorCall<P, B>>
    decreases events.len(),
{
    if events.len() == 0 {
        Seq::empty()
    } else {
        event_calls(nodes, primitives, events.drop_last()).push(
            event_call(nodes, primitives, events.last()),
        )
    }
}

/// Positions of the primitives tested by a sequence of walk steps, in order.
pub open spec fn visits_of(events: Seq<WalkEvent>) -> Seq<int>
    decreases events.len(),
{
    if events.len() == 0 {
        Seq::empty()
    } else {
        match events.last() {
            WalkEvent::Visit(k) => visits_of(events.drop_last()).push(k),
            WalkEvent::Test(_, _) => visits_of(events.drop_last()),
        }
    }
}

/// Positions of the nodes whose bounds the visitor refused in a sequence of walk steps, in
/// order.
pub open spec fn refusals_of(events: Seq<WalkEvent>) -> Seq<int>
    decreases events.len(),
{
    if events.len() == 0 {
        Seq::empty()
    } else {
        match events.last() {
            WalkEvent::Test(p, false) => refusals_of(events.drop_last()).push(p),
            _ => refusals_of(events.drop_last()),
        }
    }
}

/// Positions of the refused subtrees.
pub open spec fn refused_positions<B>(refused: Seq<(int, BvhTreeNode<B>)>) -> Seq<int> {
    refused.map_values(|e: (int, BvhTreeNode<B>)| e.0)
}

proof fn lemma_events_push<P, B>(
    nodes: Seq<BvhNode<B>>,
    primitives: Seq<P>,
    events: Seq<WalkEvent>,
    e: WalkEvent,
)
    ensures
        event_calls(nodes, primitives, events.push(e)) == event_calls(nodes, primitives, events).push(
            event_call(nodes, primitives, e),
        ),
        e is Visit ==> visits_of(events.push(e)) == visits_of(events).push(e->Visit_0),
        e is Test ==> visits_of(events.push(e)) == visits_of(events),
        (e is Test && !e->Test_1) ==> refusals_of(events.push(e)) == refusals_of(events).push(
            e->Test_0,
        ),
        !(e is Test && !e->Test_1) ==> refusals_of(events.push(e)) == refusals_of(events),
{
    assert(events.push(e).drop_last() =~= events);
}

/// The steps of the walk of the subtree `t` stored at position `p` when the visitor answers
/// `ans(q)` for the bounds of the node at position `q`: the node's bounds are tested; a
/// refused node ends there; an accepted leaf hands over its primitives in order; an
/// accepted interior node is followed by the walk of the child on the side the ray comes
/// from (the right one when `dir` of the split axis is set), then by that of the other.
pub open spec fn walk_events<B>(
    t: BvhTreeNode<B>,
    p: int,
    dir: Seq<bool>,
    ans: spec_fn(int) -> bool,
) -> Seq<WalkEvent>
    decreases t,
{
    if !ans(p) {
        seq![WalkEvent::Test(p, false)]
    } else {
        match t {
            BvhTreeNode::Leaf(l) => seq![WalkEvent::Test(p, true)] + leaf_visits(l),
            BvhTreeNode::Interior(i) => {
                let lp = p + 1;
                let rp = p + 1 + i.left.size();
                if dir[i.split_axis as int] {
                    seq![WalkEvent::Test(p, true)] + walk_events(*i.right, rp, dir, ans)
                        + walk_events(*i.left, lp, dir, ans)
                } else {
                    seq![WalkEvent::Test(p, true)] + walk_events(*i.left, lp, dir, ans)
                        + walk_events(*i.right, rp, dir, ans)
                }
            },
        }
    }
}

/// The primitives of a leaf, handed over in order.
pub open spec fn leaf_visits<B>(l: BvhTreeNodeLeaf<B>) -> Seq<WalkEvent> {
    Seq::new(
        (l.range.end - l.range.start) as nat,
        |j: int| WalkEvent::Visit(l.range.start + j),
    )
}

/// The answers recorded in a sequence of walk steps: `true` for a position whose bounds
/// were tested and accepted.
pub open spec fn answers(events: Seq<WalkEvent>) -> spec_fn(int) -> bool {
    |q: int| events.contains(WalkEvent::Test(q, true))
}

/// The node at position `q` has had its bounds tested.
spec fn tested(events: Seq<WalkEvent>, q: int) -> bool {
    events.contains(WalkEvent::Test(q, true)) || events.contains(WalkEvent::Test(q, false))
}

/// `ans` gives the recorded answer for every position tested so far.
spec fn agrees(ans: spec_fn(int) -> bool, events: Seq<WalkEvent>) -> bool {
    forall|q: int| #[trigger] tested(events, q) ==> ans(q) == events.contains(WalkEvent::Test(q, true))
}

spec fn in_pos<B>(t: BvhTreeNode<B>, p: int, q: int) -> bool {
    p <= q < p + t.size()
}

spec fn pos_disjoint<B>(a: (BvhTreeNode<B>, int, int), b: (BvhTreeNode<B>, int, int)) -> bool {
    a.1 + a.0.size() <= b.1 || b.1 + b.0.size() <= a.1
}

/// The walks of the subtrees kept on the stack, top first.
spec fn stack_walks<B>(
    stk: Seq<(BvhTreeNode<B>, int, int)>,
    dir: Seq<bool>,
    ans: spec_fn(int) -> bool,
) -> Seq<WalkEvent>
    decreases stk.len(),
{
    if stk.len() == 0 {
        Seq::empty()
    } else {
        walk_events(stk.last().0, stk.last().1, dir, ans) + stack_walks(stk.drop_last(), dir, ans)
    }
}

spec fn stack_pos_ok<B>(events: Seq<WalkEvent>, stk: Seq<(BvhTreeNode<B>, int, int)>) -> bool {
    &&& forall|q: int, k: int|
        #![trigger tested(events, q), stk[k]]
        0 <= k < stk.len() && tested(events, q) ==> !in_pos(stk[k].0, stk[k].1, q)
    &&& forall|i: int, j: int|
        0 <= i < j < stk.len() ==> pos_disjoint(#[trigger] stk[i], #[trigger] stk[j])
}

/// Between two subtrees: the steps so far followed by the walks of what is left on the
/// stack are the whole walk, for any answers that agree with those recorded.
#[verifier::opaque]
spec fn walk_rest<B>(
    t: BvhTreeNode<B>,
    dir: Seq<bool>,
    events: Seq<WalkEvent>,
    stk: Seq<(BvhTreeNode<B>, int, int)>,
) -> bool {
    &&& stack_pos_ok(events, stk)
    &&& forall|ans: spec_fn(int) -> bool|
        #[trigger] agrees(ans, events) ==> walk_events(t, 0, dir, ans) == events + stack_walks(
            stk,
            dir,
            ans,
        )
}

/// Before the subtree `cur` at `p`: the steps so far, its walk and the walks of what is on
/// the stack are the whole walk, for any answers that agree with those recorded.
#[verifier::opaque]
spec fn walk_cur<B>(
    t: BvhTreeNode<B>,
    dir: Seq<bool>,
    events: Seq<WalkEvent>,
    cur: BvhTreeNode<B>,
    p: int,
    stk: Seq<(BvhTreeNode<B>, int, int)>,
) -> bool {
    &&& stack_pos_ok(events, stk)
    &&& forall|q: int| #[trigger] tested(events, q) ==> !in_pos(cur, p, q)
    &&& forall|k: int| 0 <= k < stk.len() ==> pos_disjoint(#[trigger] stk[k], (cur, p, 0))
    &&& forall|ans: spec_fn(int) -> bool|
        #[trigger] agrees(ans, events) ==> walk_events(t, 0, dir, ans) == events + walk_events(
            cur,
            p,
            dir,
            ans,
        ) + stack_walks(stk, dir, ans)
}

proof fn lemma_contains_push(s: Seq<WalkEvent>, e: WalkEvent, x: WalkEvent)
    ensures
        s.push(e).contains(x) <==> s.contains(x) || e == x,
{
    if s.contains(x) {
        let i = choose|i: int| 0 <= i < s.len() && s[i] == x;
        assert(s.push(e)[i] == x);
    }
    if e == x {
        assert(s.push(e)[s.len() as int] == x);
    }
    if s.push(e).contains(x) {
        let i = choose|i: int| 0 <= i < s.push(e).len() && s.push(e)[i] == x;
        if i < s.len() {
            assert(s[i] == x);
        }
    }
}

/// A new bounds test at an untested position `p` keeps the earlier answers and fixes the
/// answer at `p`.
proof fn lemma_test_step(events: Seq<WalkEvent>, p: int, a: bool, ans: spec_fn(int) -> bool)
    requires
        !tested(events, p),
        agrees(ans, events.push(WalkEvent::Test(p, a))),
    ensures
        agrees(ans, events),
        ans(p) == a,
{
    let e1 = events.push(WalkEvent::Test(p, a));
    lemma_contains_push(events, WalkEvent::Test(p, a), WalkEvent::Test(p, true));
    lemma_contains_push(events, WalkEvent::Test(p, a), WalkEvent::Test(p, false));
    assert(tested(e1, p));
    assert forall|q: int| #[trigger] tested(events, q) implies ans(q) == events.contains(
        WalkEvent::Test(q, true),
    ) by {
        lemma_contains_push(events, WalkEvent::Test(p, a), WalkEvent::Test(q, true));
        lemma_contains_push(events, WalkEvent::Test(p, a), WalkEvent::Test(q, false));
        assert(tested(e1, q));
    }
}

/// Positions tested after one more test are those tested before and the new one.
proof fn lemma_tested_push(events: Seq<WalkEvent>, p: int, a: bool, q: int)
    ensures
        tested(events.push(WalkEvent::Test(p, a)), q) <==> tested(events, q) || q == p,
{
    lemma_contains_push(events, WalkEvent::Test(p, a), WalkEvent::Test(q, true));
    lemma_contains_push(events, WalkEvent::Test(p, a), WalkEvent::Test(q, false));
}

proof fn lemma_stack_walks_push<B>(
    stk: Seq<(BvhTreeNode<B>, int, int)>,
    x: (BvhTreeNode<B>, int, int),
    dir: Seq<bool>,
    ans: spec_fn(int) -> bool,
)
    ensures
        stack_walks(stk.push(x), dir, ans) == walk_events(x.0, x.1, dir, ans) + stack_walks(
            stk,
            dir,
            ans,
        ),
{
    assert(stk.push(x).drop_last() =~= stk);
}

/// The walk starts at the root with nothing recorded and nothing on the stack.
proof fn lemma_walk_begin<B>(t: BvhTreeNode<B>, dir: Seq<bool>)
    ensures
        walk_cur(t, dir, Seq::empty(), t, 0, Seq::empty()),
{
    reveal(walk_cur);
    let e = Seq::<WalkEvent>::empty();
    assert forall|q: int| #[trigger] tested(e, q) implies !in_pos(t, 0, q) by {}
    assert forall|ans: spec_fn(int) -> bool| #[trigger] agrees(ans, e) implies walk_events(
        t,
        0,
        dir,
        ans,
    ) == e + walk_events(t, 0, dir, ans) + stack_walks(Seq::<(BvhTreeNode<B>, int, int)>::empty(), dir, ans) by {
        assert(e + walk_events(t, 0, dir, ans) + stack_walks(
            Seq::<(BvhTreeNode<B>, int, int)>::empty(),
            dir,
            ans,
        ) =~= walk_events(t, 0, dir, ans));
    }
}

/// Refusing the subtree at `p` leaves only the stack to walk.
proof fn lemma_walk_refuse<B>(
    t: BvhTreeNode<B>,
    dir: Seq<bool>,
    events: Seq<WalkEvent>,
    cur: BvhTreeNode<B>,
    p: int,
    stk: Seq<(BvhTreeNode<B>, int, int)>,
)
    requires
        walk_cur(t, dir, events, cur, p, stk),
    ensures
        walk_rest(t, dir, events.push(WalkEvent::Test(p, false)), stk),
{
    reveal(walk_cur);
    reveal(walk_rest);
    lemma_size_positive(cur);
    let e1 = events.push(WalkEvent::Test(p, false));
    assert(!tested(events, p)) by {
        if tested(events, p) {
            assert(!in_pos(cur, p, p));
        }
    }
    assert forall|q: int, k: int|
        #![trigger tested(e1, q), stk[k]]
        0 <= k < stk.len() && tested(e1, q) implies !in_pos(stk[k].0, stk[k].1, q) by {
        lemma_tested_push(events, p, false, q);
        if q == p {
            assert(pos_disjoint(stk[k], (cur, p, 0)));
        } else {
            assert(tested(events, q));
        }
    }
    assert forall|ans: spec_fn(int) -> bool| #[trigger] agrees(ans, e1) implies walk_events(
        t,
        0,
        dir,
        ans,
    ) == e1 + stack_walks(stk, dir, ans) by {
        lemma_test_step(events, p, false, ans);
        assert(agrees(ans, events));
        assert(walk_events(cur, p, dir, ans) == seq![WalkEvent::Test(p, false)]);
        assert(events + seq![WalkEvent::Test(p, false)] + stack_walks(stk, dir, ans) =~= e1
            + stack_walks(stk, dir, ans));
    }
}

/// Accepting the leaf at `p` hands over its primitives and leaves only the stack to walk.
proof fn lemma_walk_leaf<B>(
    t: BvhTreeNode<B>,
    dir: Seq<bool>,
    events: Seq<WalkEvent>,
    cur: BvhTreeNode<B>,
    p: int,
    stk: Seq<(BvhTreeNode<B>, int, int)>,
)
    requires
        walk_cur(t, dir, events, cur, p, stk),
        cur is Leaf,
    ensures
        walk_rest(
            t,
            dir,
            events.push(WalkEvent::Test(p, true)) + leaf_visits(cur->Leaf_0),
            stk,
        ),
{
    reveal(walk_cur);
    reveal(walk_rest);
    let e1 = events.push(WalkEvent::Test(p, true));
    let vis = leaf_visits(cur->Leaf_0);
    let e2 = e1 + vis;
    assert(!tested(events, p)) by {
        if tested(events, p) {
            assert(!in_pos(cur, p, p));
        }
    }
    assert forall|b: bool, q: int| e2.contains(WalkEvent::Test(q, b)) <==> #[trigger] e1.contains(
        WalkEvent::Test(q, b),
    ) by {
        if e2.contains(WalkEvent::Test(q, b)) {
            let i = choose|i: int| 0 <= i < e2.len() && e2[i] == WalkEvent::Test(q, b);
            if i >= e1.len() {
                assert(e2[i] == vis[i - e1.len()]);
            } else {
                assert(e1[i] == e2[i]);
            }
        }
        if e1.contains(WalkEvent::Test(q, b)) {
            let i = choose|i: int| 0 <= i < e1.len() && e1[i] == WalkEvent::Test(q, b);
            assert(e2[i] == e1[i]);
        }
    }
    assert forall|q: int| #[trigger] tested(e2, q) <==> tested(e1, q) by {
        assert(e1.contains(WalkEvent::Test(q, true)) == e2.contains(WalkEvent::Test(q, true)));
        assert(e1.contains(WalkEvent::Test(q, false)) == e2.contains(WalkEvent::Test(q, false)));
    }
    assert forall|q: int, k: int|
        #![trigger tested(e2, q), stk[k]]
        0 <= k < stk.len() && tested(e2, q) implies !in_pos(stk[k].0, stk[k].1, q) by {
        assert(tested(e1, q));
        lemma_tested_push(events, p, true, q);
        if q == p {
            lemma_size_positive(cur);
            assert(pos_disjoint(stk[k], (cur, p, 0)));
        } else {
            assert(tested(events, q));
        }
    }
    assert forall|ans: spec_fn(int) -> bool| #[trigger] agrees(ans, e2) implies walk_events(
        t,
        0,
        dir,
        ans,
    ) == e2 + stack_walks(stk, dir, ans) by {
        assert forall|q: int| #[trigger] tested(e1, q) implies ans(q) == e1.contains(
            WalkEvent::Test(q, true),
        ) by {
            assert(tested(e2, q));
            assert(e1.contains(WalkEvent::Test(q, true)) == e2.contains(WalkEvent::Test(q, true)));
        }
        assert(agrees(ans, e1));
        lemma_test_step(events, p, true, ans);
        assert(agrees(ans, events));
        assert(walk_events(cur, p, dir, ans) == seq![WalkEvent::Test(p, true)] + vis);
        assert(events + (seq![WalkEvent::Test(p, true)] + vis) + stack_walks(stk, dir, ans)
            =~= e2 + stack_walks(stk, dir, ans));
    }
}

/// Accepting the interior node at `p` walks the near child next and keeps the far one on
/// the stack.
proof fn lemma_walk_interior<B>(
    t: BvhTreeNode<B>,
    dir: Seq<bool>,
    events: Seq<WalkEvent>,
    cur: BvhTreeNode<B>,
    p: int,
    stk: Seq<(BvhTreeNode<B>, int, int)>,
    d: int,
)
    requires
        walk_cur(t, dir, events, cur, p, stk),
        cur is Interior,
    ensures
        ({
            let i = cur->Interior_0;
            let lp = p + 1;
            let rp = p + 1 + i.left.size();
            let e1 = events.push(WalkEvent::Test(p, true));
            if dir[i.split_axis as int] {
                walk_cur(t, dir, e1, *i.right, rp, stk.push((*i.left, lp, d)))
            } else {
                walk_cur(t, dir, e1, *i.left, lp, stk.push((*i.right, rp, d)))
            }
        }),
{
    reveal(walk_cur);
    let i = cur->Interior_0;
    let left = *i.left;
    let right = *i.right;
    let lp = p + 1;
    let rp = p + 1 + left.size();
    let e1 = events.push(WalkEvent::Test(p, true));
    lemma_size_positive(left);
    lemma_size_positive(right);
    assert(cur.size() == 1 + left.size() + right.size());
    assert(!tested(events, p)) by {
        if tested(events, p) {
            assert(!in_pos(cur, p, p));
        }
    }
    let neg = dir[i.split_axis as int];
    let near = if neg { right } else { left };
    let np = if neg { rp } else { lp };
    let far = if neg { left } else { right };
    let fp = if neg { lp } else { rp };
    let stk2 = stk.push((far, fp, d));
    // positions of the children lie inside the parent's and apart from each other
    assert forall|q: int| #[trigger] tested(e1, q) implies !in_pos(near, np, q) && !in_pos(far, fp, q) by {
        lemma_tested_push(events, p, true, q);
        if q != p {
            assert(tested(events, q));
            assert(!in_pos(cur, p, q));
        }
    }
    assert forall|q: int, k: int|
        #![trigger tested(e1, q), stk2[k]]
        0 <= k < stk2.len() && tested(e1, q) implies !in_pos(stk2[k].0, stk2[k].1, q) by {
        lemma_tested_push(events, p, true, q);
        if k < stk.len() {
            assert(stk2[k] == stk[k]);
            if q == p {
                assert(pos_disjoint(stk[k], (cur, p, 0)));
            } else {
                assert(tested(events, q));
            }
        }
    }
    assert forall|a: int, b: int|
        0 <= a < b < stk2.len() implies pos_disjoint(#[trigger] stk2[a], #[trigger] stk2[b]) by {
        assert(stk2[a] == stk[a]);
        if b < stk.len() {
            assert(stk2[b] == stk[b]);
        } else {
            assert(pos_disjoint(stk[a], (cur, p, 0)));
        }
    }
    assert forall|k: int| 0 <= k < stk2.len() implies pos_disjoint(
        #[trigger] stk2[k],
        (near, np, 0),
    ) by {
        if k < stk.len() {
            assert(stk2[k] == stk[k]);
            assert(pos_disjoint(stk[k], (cur, p, 0)));
        }
    }
    assert forall|ans: spec_fn(int) -> bool| #[trigger] agrees(ans, e1) implies walk_events(
        t,
        0,
        dir,
        ans,
    ) == e1 + walk_events(near, np, dir, ans) + stack_walks(stk2, dir, ans) by {
        lemma_test_step(events, p, true, ans);
        assert(agrees(ans, events));
        lemma_stack_walks_push(stk, (far, fp, d), dir, ans);
        assert(walk_events(cur, p, dir, ans) == seq![WalkEvent::Test(p, true)] + walk_events(
            near,
            np,
            dir,
            ans,
        ) + walk_events(far, fp, dir, ans));
        assert(events + (seq![WalkEvent::Test(p, true)] + walk_events(near, np, dir, ans)
            + walk_events(far, fp, dir, ans)) + stack_walks(stk, dir, ans) =~= e1 + walk_events(
            near,
            np,
            dir,
            ans,
        ) + (walk_events(far, fp, dir, ans) + stack_walks(stk, dir, ans)));
    }
}

/// Taking the top of the stack makes it the subtree walked next.
proof fn lemma_walk_pop<B>(
    t: BvhTreeNode<B>,
    dir: Seq<bool>,
    events: Seq<WalkEvent>,
    stk: Seq<(BvhTreeNode<B>, int, int)>,
)
    requires
        walk_rest(t, dir, events, stk),
        stk.len() > 0,
    ensures
        walk_cur(t, dir, events, stk.last().0, stk.last().1, stk.drop_last()),
{
    reveal(walk_cur);
    reveal(walk_rest);
    let top = stk.last();
    let rest = stk.drop_last();
    let n = stk.len() - 1;
    assert forall|q: int, k: int|
        #![trigger tested(events, q), rest[k]]
        0 <= k < rest.len() && tested(events, q) implies !in_pos(rest[k].0, rest[k].1, q) by {
        assert(rest[k] == stk[k]);
    }
    assert forall|a: int, b: int|
        0 <= a < b < rest.len() implies pos_disjoint(#[trigger] rest[a], #[trigger] rest[b]) by {
        assert(rest[a] == stk[a]);
        assert(rest[b] == stk[b]);
    }
    assert forall|q: int| #[trigger] tested(events, q) implies !in_pos(top.0, top.1, q) by {
        assert(stk[n] == top);
    }
    assert forall|k: int| 0 <= k < rest.len() implies pos_disjoint(
        #[trigger] rest[k],
        (top.0, top.1, 0),
    ) by {
        assert(rest[k] == stk[k]);
        assert(stk[n] == top);
        assert(pos_disjoint(stk[k], stk[n]));
    }
    assert forall|ans: spec_fn(int) -> bool| #[trigger] agrees(ans, events) implies walk_events(
        t,
        0,
        dir,
        ans,
    ) == events + walk_events(top.0, top.1, dir, ans) + stack_walks(rest, dir, ans) by {
        assert(events + stack_walks(stk, dir, ans) =~= events + walk_events(top.0, top.1, dir, ans)
            + stack_walks(rest, dir, ans));
    }
}

/// With the stack empty, the recorded steps are the whole walk under the recorded answers.
proof fn lemma_walk_end<B>(t: BvhTreeNode<B>, dir: Seq<bool>, events: Seq<WalkEvent>)
    requires
        walk_rest(t, dir, events, Seq::empty()),
    ensures
        events == walk_events(t, 0, dir, answers(events)),
{
    reveal(walk_rest);
    let ans = answers(events);
    assert forall|q: int| #[trigger] tested(events, q) implies ans(q) == events.contains(
        WalkEvent::Test(q, true),
    ) by {}
    assert(agrees(ans, events));
    assert(events + stack_walks(Seq::<(BvhTreeNode<B>, int, int)>::empty(), dir, ans) =~= events);
}

/// Primitive `x` lies under one of the `refused` subtrees.
pub open spec fn under_refused<B>(refused: Seq<(int, BvhTreeNode<B>)>, x: int) -> bool {
    exists|j: int| 0 <= j < refused.len() && in_span(#[trigger] refused[j].1, x)
}

/// Primitive `x` lies under one of the subtrees kept on the stack.
pub open spec fn under_pending<B>(stk: Seq<(BvhTreeNode<B>, int, int)>, x: int) -> bool {
    exists|k: int| 0 <= k < stk.len() && in_span(#[trigger] stk[k].0, x)
}

/// During a walk, primitive `x` has been tested, lies under a refused subtree, or lies
/// under the subtree being walked or one kept on the stack.
pub open spec fn accounted<B>(
    visited: Seq<int>,
    refused: Seq<(int, BvhTreeNode<B>)>,
    cur: BvhTreeNode<B>,
    stk: Seq<(BvhTreeNode<B>, int, int)>,
    x: int,
) -> bool {
    visited.contains(x) || under_refused(refused, x) || in_span(cur, x) || under_pending(stk, x)
}

/// The run of an interior node is the runs of its two children, and whatever run misses
/// the parent's misses both children.
proof fn lemma_interior_span<B>(t: BvhTreeNode<B>)
    requires
        t.well_formed(),
        t is Interior,
    ensures
        forall|x: int|
            #[trigger] in_span(t, x) <==> in_span(*t->Interior_0.left, x) || in_span(
                *t->Interior_0.right,
                x,
            ),
        forall|a: BvhTreeNode<B>|
            #[trigger] spans_disjoint(a, t) ==> spans_disjoint(a, *t->Interior_0.left)
                && spans_disjoint(a, *t->Interior_0.right),
{
    lemma_well_formed_span(*t->Interior_0.left);
    lemma_well_formed_span(*t->Interior_0.right);
}

/// Removing the top of the stack moves what lay under it to the subtree walked next.
proof fn lemma_pop_accounted<B>(
    visited: Seq<int>,
    refused: Seq<(int, BvhTreeNode<B>)>,
    stk: Seq<(BvhTreeNode<B>, int, int)>,
    x: int,
)
    requires
        stk.len() > 0,
        visited.contains(x) || under_refused(refused, x) || under_pending(stk, x),
    ensures
        accounted(visited, refused, stk.last().0, stk.drop_last(), x),
{
    if under_pending(stk, x) && !visited.contains(x) && !under_refused(refused, x) {
        let k = choose|k: int| 0 <= k < stk.len() && in_span(#[trigger] stk[k].0, x);
        if k < stk.len() - 1 {
            assert(stk.drop_last()[k] == stk[k]);
        }
    }
}

/// Adding a subtree to the refused ones keeps every primitive that was under one.
proof fn lemma_refuse_accounted<B>(
    refused: Seq<(int, BvhTreeNode<B>)>,
    e: (int, BvhTreeNode<B>),
    x: int,
)
    requires
        under_refused(refused, x) || in_span(e.1, x),
    ensures
        under_refused(refused.push(e), x),
{
    if in_span(e.1, x) {
        assert(refused.push(e)[refused.len() as int] == e);
    } else {
        let j = choose|j: int| 0 <= j < refused.len() && in_span(#[trigger] refused[j].1, x);
        assert(refused.push(e)[j] == refused[j]);
    }
}

/// Appending the run `start .. start + len` to a sequence adds exactly that run.
proof fn lemma_append_run_contains(old: Seq<int>, start: int, len: nat, x: int)
    requires
        old.contains(x) || start <= x < start + len,
    ensures
        (old + Seq::new(len, |j: int| start + j)).contains(x),
{
    let s = old + Seq::new(len, |j: int| start + j);
    if start <= x < start + len {
        assert(s[old.len() + (x - start)] == x);
    } else {
        let v = choose|v: int| 0 <= v < old.len() && old[v] == x;
        assert(s[v] == x);
    }
}

impl<P, B> Bvh<P, B> {
    /// Walks the hierarchy depth first for one ray query: a node is entered only if the
    /// visitor accepts its bounds; at an interior node the child on the side the ray comes
    /// from (`dir_is_neg` of the split axis picks the right one) is walked first and the
    /// other is kept on a stack of 32 entries; at a leaf every primitive is handed to the
    /// visitor. Returns how many nodes and primitives were tested and, as ghost values, the
    /// positions of the tested primitives in the order they were tested, the subtrees (with
    /// their positions in the node array) whose bounds the visitor refused, and the steps of
    /// the walk. The calls the visitor received are exactly those steps, in order: a bounds
    /// test of each node reached with the visitor's answer, and each tested primitive; a
    /// refused subtree is one whose root's bounds the visitor answered `false`. Each node and
    /// each primitive is tested at most once, the primitives handed to the visitor are
    /// exactly those that lie under no refused subtree, and an empty hierarchy leaves the
    /// visitor untouched. The steps are exactly `walk_events` of the build tree under the
    /// answers the visitor gave: every child of an accepted interior node gets a bounds test,
    /// the near child's walk first.
    pub fn traverse<V: BvhVisitor<P, B>>(
        &self,
        dir_is_neg: [bool; 3],
        visitor: &mut LoggedVisitor<P, B, V>,
    ) -> (r: (
        crate::geometry::RayDebugInfo,
        Ghost<(Seq<int>, Seq<(int, BvhTreeNode<B>)>, Seq<WalkEvent>)>,
    ))
        requires
            self.wf(),
            self.spec_tree() matches Some(t) ==> t.height() <= 33,
        ensures
            walk_bounded(self, r.0.bounds_test_count as int, r.0.primitive_test_count as int),
            self.spec_primitives().len() == 0 ==> r.0.bounds_test_count == 0
                && r.0.primitive_test_count == 0,
            self.spec_primitives().len() > 0 ==> r.0.bounds_test_count >= 1,
            r.1@.0.len() == r.0.primitive_test_count,
            r.1@.0.no_duplicates(),
            forall|k: int|
                0 <= k < r.1@.0.len() ==> 0 <= #[trigger] r.1@.0[k] < self.spec_primitives().len(),
            r.1@.1.len() <= r.0.bounds_test_count,
            forall|j: int|
                0 <= j < r.1@.1.len() ==> stored_at(
                    self.spec_nodes(),
                    (#[trigger] r.1@.1[j]).1,
                    r.1@.1[j].0,
                ),
            forall|x: int|
                0 <= x < self.spec_primitives().len() ==> #[trigger] r.1@.0.contains(x)
                    || under_refused(r.1@.1, x),
            forall|k: int, j: int|
                0 <= k < r.1@.0.len() && 0 <= j < r.1@.1.len() ==> !in_span(
                    (#[trigger] r.1@.1[j]).1,
                    #[trigger] r.1@.0[k],
                ),
            final(visitor).calls() == old(visitor).calls() + event_calls(
                self.spec_nodes(),
                self.spec_primitives(),
                r.1@.2,
            ),
            r.1@.0 == visits_of(r.1@.2),
            refused_positions(r.1@.1) == refusals_of(r.1@.2),
            r.0.bounds_test_count + r.0.primitive_test_count == r.1@.2.len(),
            self.spec_primitives().len() == 0 ==> *final(visitor) == *old(visitor),
            self.spec_tree() matches Some(t) ==> r.1@.2 == walk_events(
                t,
                0,
                dir_is_neg@,
                answers(r.1@.2),
            ),
    {
        if self.ordered_primitives.len() == 0 {
            proof {
                if let Some(t) = self.spec_tree() {
                    lemma_well_formed_span(t);
                }
            }
            return (
                crate::geometry::RayDebugInfo { bounds_test_count: 0, primitive_test_count: 0 },
                Ghost((Seq::empty(), Seq::empty(), Seq::empty())),
            );
        }
        let ghost t = self.spec_tree()->Some_0;
        let ghost nodes = self.flattened_nodes@;
        let ghost n = self.ordered_primitives@.len() as int;
        let ghost prims = self.ordered_primitives@;
        let ghost calls0 = visitor.calls();
        let ghost mut events: Seq<WalkEvent> = Seq::empty();
        let ghost dir = dir_is_neg@;
        let mut stack: [u32; 32] = [0u32; 32];
        let mut ptr: usize = 0;
        let mut current_node: u32 = 0;
        let mut bounds_test_count: usize = 0;
        let mut primitive_test_count: usize = 0;
        let ghost mut cur_t = t;
        let ghost mut cur_d: int = 1;
        let ghost mut stk: Seq<(BvhTreeNode<B>, int, int)> = Seq::empty();
        let ghost mut visited: Seq<int> = Seq::empty();
        let ghost mut refused: Seq<(int, BvhTreeNode<B>)> = Seq::empty();
        proof {
            lemma_flatten_len(t, 0);
            lemma_well_formed_span(t);
            assert(nodes.subrange(0, t.size() as int) =~= t.flatten(0));
            lemma_walk_begin(t, dir);
        }
        // Reading the length brings in that it fits a usize.
        let _node_count = self.flattened_nodes.len();
        loop
            invariant_except_break
                forall|v: int|
                    0 <= v < visited.len() ==> 0 <= #[trigger] visited[v] < n && !in_span(
                        cur_t,
                        visited[v],
                    ),
                bounds_test_count + cur_t.size() + sum_sizes(stk) <= t.size(),
                forall|x: int| 0 <= x < n ==> #[trigger] accounted(visited, refused, cur_t, stk, x),
                forall|j: int| 0 <= j < refused.len() ==> spans_disjoint((#[trigger] refused[j]).1, cur_t),
                walk_cur(t, dir, events, cur_t, current_node as int, stk),
            invariant
                dir == dir_is_neg@,
                nodes.len() <= usize::MAX,
                n <= usize::MAX,
                self.wf(),
                self.spec_tree() == Some(t),
                t.height() <= 33,
                nodes == self.spec_nodes(),
                nodes.len() == t.size(),
                n == self.spec_primitives().len(),
                n >= 1,
                ptr == stk.len(),
                ptr <= 32,
                forall|k: int| 0 <= k < ptr ==> stack@[k] as int == (#[trigger] stk[k]).1,
                forall|k: int|
                    0 <= k < ptr ==> pending_ok(nodes, n, (#[trigger] stk[k]).0, stk[k].1, stk[k].2)
                        && stk[k].2 >= k + 2,
                pending_ok(nodes, n, cur_t, current_node as int, cur_d),
                ptr + 1 <= cur_d,
                forall|i: int, j: int|
                    0 <= i < j < ptr ==> spans_disjoint((#[trigger] stk[i]).0, (#[trigger] stk[j]).0),
                forall|k: int| 0 <= k < ptr ==> spans_disjoint((#[trigger] stk[k]).0, cur_t),
                visited.no_duplicates(),
                forall|v: int, k: int|
                    0 <= v < visited.len() && 0 <= k < ptr ==> !#[trigger] in_span(
                        stk[k].0,
                        visited[v],
                    ),
                primitive_test_count == visited.len(),
                prims == self.spec_primitives(),
                visitor.calls() == calls0 + event_calls(nodes, prims, events),
                visited == visits_of(events),
                refused_positions(refused) == refusals_of(events),
                bounds_test_count + primitive_test_count == events.len(),
                refused.len() <= bounds_test_count,
                forall|j: int|
                    0 <= j < refused.len() ==> stored_at(
                        nodes,
                        (#[trigger] refused[j]).1,
                        refused[j].0,
                    ),
                forall|j: int, k: int|
                    0 <= j < refused.len() && 0 <= k < ptr ==> spans_disjoint(
                        (#[trigger] refused[j]).1,
                        (#[trigger] stk[k]).0,
                    ),
                forall|v: int, j: int|
                    0 <= v < visited.len() && 0 <= j < refused.len() ==> !in_span(
                        (#[trigger] refused[j]).1,
                        #[trigger] visited[v],
                    ),
            ensures
                walk_bounded(self, bounds_test_count as int, primitive_test_count as int),
                bounds_test_count >= 1,
                events == walk_events(t, 0, dir, answers(events)),
                primitive_test_count == visited.len(),
                prims == self.spec_primitives(),
                visitor.calls() == calls0 + event_calls(nodes, prims, events),
                visited == visits_of(events),
                refused_positions(refused) == refusals_of(events),
                bounds_test_count + primitive_test_count == events.len(),
                visited.no_duplicates(),
                forall|v: int| 0 <= v < visited.len() ==> 0 <= #[trigger] visited[v] < n,
                refused.len() <= bounds_test_count,
                forall|j: int|
                    0 <= j < refused.len() ==> stored_at(
                        nodes,
                        (#[trigger] refused[j]).1,
                        refused[j].0,
                    ),
                forall|x: int| 0 <= x < n ==> #[trigger] visited.contains(x) || under_refused(refused, x),
                forall|v: int, j: int|
                    0 <= v < visited.len() && 0 <= j < refused.len() ==> !in_span(
                        (#[trigger] refused[j]).1,
                        #[trigger] visited[v],
                    ),
            decreases cur_t.size() + sum_sizes(stk),
        {
            proof {
                lemma_sum_sizes_nonneg(stk);
                lemma_well_formed_span(cur_t);
                lemma_distinct_bounded(visited, n);
            }
            let node = &self.flattened_nodes[current_node as usize];
            bounds_test_count = bounds_test_count + 1;
            let entered = visitor.enters(&node.bounds);
            let ghost ev_before = events;
            proof {
                let e = WalkEvent::Test(current_node as int, entered);
                lemma_events_push(nodes, prims, events, e);
                assert(calls0 + event_calls(nodes, prims, events.push(e)) =~= (calls0
                    + event_calls(nodes, prims, events)).push(event_call(nodes, prims, e)));
                events = events.push(e);
            }
            if !entered {
                let ghost old_refused = refused;
                proof {
                    refused = refused.push((current_node as int, cur_t));
                    assert(refused_positions(refused) =~= refused_positions(old_refused).push(
                        current_node as int,
                    ));
                    lemma_walk_refuse(t, dir, ev_before, cur_t, current_node as int, stk);
                    assert forall|x: int|
                        0 <= x < n && !#[trigger] visited.contains(x) && !under_pending(stk, x)
                        implies under_refused(refused, x) by {
                        assert(accounted(visited, old_refused, cur_t, stk, x));
                        lemma_refuse_accounted(old_refused, (current_node as int, cur_t), x);
                    }
                    assert forall|v: int, j: int|
                        0 <= v < visited.len() && 0 <= j < refused.len() implies !in_span(
                            (#[trigger] refused[j]).1,
                            #[trigger] visited[v],
                        ) by {
                        if j < old_refused.len() {
                            assert(refused[j] == old_refused[j]);
                        }
                    }
                    assert forall|j: int, k: int|
                        0 <= j < refused.len() && 0 <= k < ptr implies spans_disjoint(
                            (#[trigger] refused[j]).1,
                            (#[trigger] stk[k]).0,
                        ) by {
                        if j < old_refused.len() {
                            assert(refused[j] == old_refused[j]);
                        }
                    }
                    assert forall|j: int| 0 <= j < refused.len() implies stored_at(
                        nodes,
                        (#[trigger] refused[j]).1,
                        refused[j].0,
                    ) by {
                        if j < old_refused.len() {
                            assert(refused[j] == old_refused[j]);
                        }
                    }
                }
                if ptr == 0 {
                    proof {
                        lemma_distinct_bounded(visited, n);
                        assert forall|x: int| 0 <= x < n implies #[trigger] visited.contains(x)
                            || under_refused(refused, x) by {
                            if !visited.contains(x) {
                                assert(!under_pending(stk, x));
                            }
                        }
                        assert(stk =~= Seq::<(BvhTreeNode<B>, int, int)>::empty());
                        lemma_walk_end(t, dir, events);
                    }
                    break ;
                }
                ptr = ptr - 1;
                current_node = stack[ptr];
                proof {
                    lemma_walk_pop(t, dir, events, stk);
                    let top = stk.last();
                    assert(sum_sizes(stk) == sum_sizes(stk.drop_last()) + top.0.size());
                    assert(stk[ptr as int] == top);
                    assert forall|x: int| 0 <= x < n implies #[trigger] accounted(
                        visited,
                        refused,
                        top.0,
                        stk.drop_last(),
                        x,
                    ) by {
                        lemma_pop_accounted(visited, refused, stk, x);
                    }
                    assert forall|j: int| 0 <= j < refused.len() implies spans_disjoint(
                        (#[trigger] refused[j]).1,
                        top.0,
                    ) by {
                        if j < old_refused.len() {
                            assert(refused[j] == old_refused[j]);
                        }
                    }
                    cur_t = top.0;
                    cur_d = top.2;
                    stk = stk.drop_last();
                }
                continue ;
            }
            if node.primitive_count == 0 {
                let ghost p = current_node as int;
                proof {
                    if cur_t is Leaf {
                        lemma_stored_leaf(nodes, cur_t, p);
                    }
                    lemma_stored_interior(nodes, cur_t, p);
                }
                let ghost i = cur_t->Interior_0;
                let ghost l = *i.left;
                let ghost r = *i.right;
                let ghost rb = p + 1 + l.size();
                proof {
                    lemma_well_formed_span(l);
                    lemma_well_formed_span(r);
                    lemma_interior_span(cur_t);
                    assert(cur_d <= 32);
                    lemma_walk_interior(t, dir, ev_before, cur_t, p, stk, cur_d + 1);
                }
                let axis = node.split_axis as usize;
                if dir_is_neg[axis] {
                    stack[ptr] = current_node + 1;
                    ptr = ptr + 1;
                    current_node = node.index;
                    proof {
                        let new_stk = stk.push((l, p + 1, cur_d + 1));
                        assert forall|x: int| 0 <= x < n implies #[trigger] accounted(
                            visited,
                            refused,
                            r,
                            new_stk,
                            x,
                        ) by {
                            assert(accounted(visited, refused, cur_t, stk, x));
                            if under_pending(stk, x) {
                                let k = choose|k: int|
                                    0 <= k < stk.len() && in_span(#[trigger] stk[k].0, x);
                                assert(new_stk[k] == stk[k]);
                                assert(in_span(new_stk[k].0, x));
                            }
                            if in_span(l, x) {
                                assert(new_stk[stk.len() as int] == (l, p + 1, cur_d + 1));
                                assert(in_span(new_stk[stk.len() as int].0, x));
                            }
                        }
                        assert forall|j: int| 0 <= j < refused.len() implies spans_disjoint(
                            (#[trigger] refused[j]).1,
                            r,
                        ) by {
                            assert(spans_disjoint(refused[j].1, cur_t));
                        }
                        assert forall|j: int, k: int|
                            0 <= j < refused.len() && 0 <= k < new_stk.len() implies spans_disjoint(
                                (#[trigger] refused[j]).1,
                                (#[trigger] new_stk[k]).0,
                            ) by {
                            if k < stk.len() {
                                assert(new_stk[k] == stk[k]);
                            } else {
                                assert(spans_disjoint(refused[j].1, cur_t));
                            }
                        }
                        lemma_sum_sizes_push(stk, (l, p + 1, cur_d + 1));
                        stk = new_stk;
                        cur_t = r;
                        cur_d = cur_d + 1;
                    }
                } else {
                    current_node = current_node + 1;
                    stack[ptr] = node.index;
                    ptr = ptr + 1;
                    proof {
                        let new_stk = stk.push((r, rb, cur_d + 1));
                        assert forall|x: int| 0 <= x < n implies #[trigger] accounted(
                            visited,
                            refused,
                            l,
                            new_stk,
                            x,
                        ) by {
                            assert(accounted(visited, refused, cur_t, stk, x));
                            if under_pending(stk, x) {
                                let k = choose|k: int|
                                    0 <= k < stk.len() && in_span(#[trigger] stk[k].0, x);
                                assert(new_stk[k] == stk[k]);
                                assert(in_span(new_stk[k].0, x));
                            }
                            if in_span(r, x) {
                                assert(new_stk[stk.len() as int] == (r, rb, cur_d + 1));
                                assert(in_span(new_stk[stk.len() as int].0, x));
                            }
                        }
                        assert forall|j: int| 0 <= j < refused.len() implies spans_disjoint(
                            (#[trigger] refused[j]).1,
                            l,
                        ) by {
                            assert(spans_disjoint(refused[j].1, cur_t));
                        }
                        assert forall|j: int, k: int|
                            0 <= j < refused.len() && 0 <= k < new_stk.len() implies spans_disjoint(
                                (#[trigger] refused[j]).1,
                                (#[trigger] new_stk[k]).0,
                            ) by {
                            if k < stk.len() {
                                assert(new_stk[k] == stk[k]);
                            } else {
                                assert(spans_disjoint(refused[j].1, cur_t));
                            }
                        }
                        lemma_sum_sizes_push(stk, (r, rb, cur_d + 1));
                        stk = new_stk;
                        cur_t = l;
                        cur_d = cur_d + 1;
                    }
                }
            } else {
                let ghost p = current_node as int;
                proof {
                    if cur_t is Interior {
                        lemma_stored_interior(nodes, cur_t, p);
                    }
                    lemma_stored_leaf(nodes, cur_t, p);
                }
                let start = node.index;
                let end = node.index + node.primitive_count as u32;
                let ghost fresh = Seq::new((end - start) as nat, |j: int| start + j);
                let ghost after = visited + fresh;
                proof {
                    assert forall|a: int, b: int|
                        0 <= a < after.len() && 0 <= b < after.len() && a != b implies after[a]
                        != after[b] by {
                        if a < visited.len() && b >= visited.len() {
                            assert(in_span(cur_t, after[b]));
                        } else if a >= visited.len() && b < visited.len() {
                            assert(in_span(cur_t, after[a]));
                        }
                    }
                    assert forall|k: int| 0 <= k < after.len() implies 0 <= #[trigger] after[k]
                        < n by {
                        if k < visited.len() {
                            assert(after[k] == visited[k]);
                        }
                    }
                    lemma_distinct_bounded(after, n);
                    assert(cur_t is Leaf);
                    lemma_walk_leaf(t, dir, ev_before, cur_t, p, stk);
                }
                let ghost ev_leaf = events;
                let mut k = start as usize;
                let end_index = end as usize;
                while k < end_index
                    invariant
                        start <= k <= end_index,
                        end_index == end,
                        end_index <= n,
                        n <= usize::MAX,
                        n == self.spec_primitives().len(),
                        primitive_test_count == visited.len() + (k - start),
                        visited.len() + (end - start) <= n,
                        prims == self.spec_primitives(),
                        visitor.calls() == calls0 + event_calls(nodes, prims, events),
                        visits_of(events) == visited + Seq::new(
                            (k - start) as nat,
                            |j: int| start + j,
                        ),
                        refused_positions(refused) == refusals_of(events),
                        bounds_test_count + primitive_test_count == events.len(),
                        events == ev_leaf + Seq::new(
                            (k - start) as nat,
                            |j: int| WalkEvent::Visit(start + j),
                        ),
                    decreases end_index - k,
                {
                    visitor.visit_primitive(&self.ordered_primitives[k]);
                    proof {
                        let e = WalkEvent::Visit(k as int);
                        lemma_events_push(nodes, prims, events, e);
                        assert(calls0 + event_calls(nodes, prims, events.push(e)) =~= (calls0
                            + event_calls(nodes, prims, events)).push(event_call(nodes, prims, e)));
                        assert((visited + Seq::new((k - start) as nat, |j: int| start + j)).push(
                            k as int,
                        ) =~= visited + Seq::new((k + 1 - start) as nat, |j: int| start + j));
                        assert((ev_leaf + Seq::new(
                            (k - start) as nat,
                            |j: int| WalkEvent::Visit(start + j),
                        )).push(e) =~= ev_leaf + Seq::new(
                            (k + 1 - start) as nat,
                            |j: int| WalkEvent::Visit(start + j),
                        ));
                        events = events.push(e);
                    }
                    primitive_test_count = primitive_test_count + 1;
                    k = k + 1;
                }
                proof {
                    assert(visits_of(events) =~= after);
                    assert(events =~= ev_before.push(WalkEvent::Test(p, true)) + leaf_visits(
                        cur_t->Leaf_0,
                    ));
                }
                let ghost old_visited = visited;
                proof {
                    visited = after;
                    assert forall|v: int, k2: int|
                        0 <= v < visited.len() && 0 <= k2 < ptr implies !#[trigger] in_span(
                            stk[k2].0,
                            visited[v],
                        ) by {
                        if v >= after.len() - fresh.len() {
                            assert(in_span(cur_t, visited[v]));
                            assert(spans_disjoint(stk[k2].0, cur_t));
                        }
                    }
                    assert forall|v: int, j: int|
                        0 <= v < visited.len() && 0 <= j < refused.len() implies !in_span(
                            (#[trigger] refused[j]).1,
                            #[trigger] visited[v],
                        ) by {
                        if v >= old_visited.len() {
                            assert(in_span(cur_t, visited[v]));
                            assert(spans_disjoint(refused[j].1, cur_t));
                        } else {
                            assert(visited[v] == old_visited[v]);
                        }
                    }
                }
                if ptr == 0 {
                    proof {
                        lemma_distinct_bounded(visited, n);
                        assert forall|x: int| 0 <= x < n implies #[trigger] visited.contains(x)
                            || under_refused(refused, x) by {
                            assert(accounted(old_visited, refused, cur_t, stk, x));
                            if old_visited.contains(x) || in_span(cur_t, x) {
                                lemma_append_run_contains(old_visited, start as int, fresh.len(), x);
                            }
                            assert(!under_pending(stk, x));
                        }
                        assert(stk =~= Seq::<(BvhTreeNode<B>, int, int)>::empty());
                        lemma_walk_end(t, dir, events);
                    }
                    break ;
                }
                ptr = ptr - 1;
                current_node = stack[ptr];
                proof {
                    lemma_walk_pop(t, dir, events, stk);
                    let top = stk.last();
                    assert(sum_sizes(stk) == sum_sizes(stk.drop_last()) + top.0.size());
                    assert(stk[ptr as int] == top);
                    assert forall|v: int| 0 <= v < visited.len() implies 0 <= #[trigger] visited[v]
                        < n && !in_span(top.0, visited[v]) by {
                        assert(!in_span(stk[ptr as int].0, visited[v]));
                    }
                    assert forall|x: int| 0 <= x < n implies #[trigger] accounted(
                        visited,
                        refused,
                        top.0,
                        stk.drop_last(),
                        x,
                    ) by {
                        assert(accounted(old_visited, refused, cur_t, stk, x));
                        if old_visited.contains(x) || in_span(cur_t, x) {
                            lemma_append_run_contains(old_visited, start as int, fresh.len(), x);
                        }
                        lemma_pop_accounted(visited, refused, stk, x);
                    }
                    assert forall|j: int| 0 <= j < refused.len() implies spans_disjoint(
                        (#[trigger] refused[j]).1,
                        top.0,
                    ) by {
                        assert(spans_disjoint(refused[j].1, stk[ptr as int].0));
                    }
                    cur_t = top.0;
                    cur_d = top.2;
                    stk = stk.drop_last();
                }
            }
        }
        (
            crate::geometry::RayDebugInfo { bounds_test_count, primitive_test_count },
            Ghost((visited, refused, events)),
        )
    }
}


/// Node count, height, first and one-past-last primitive of a tree that is well formed,
/// splits only along the three axes, is at most 33 levels high and has at most `2^32`
/// nodes; `None` for any other tree.
fn checked_shape<B>(t: &BvhTreeNode<B>) -> (r: Option<(u64, usize, usize, usize)>)
    ensures
        r matches Some(v) ==> {
            &&& t.well_formed()
            &&& t.axes_ok()
            &&& t.height() <= 33
            &&& t.size() <= u32::MAX + 1
            &&& v.0 == t.size()
            &&& v.1 == t.height()
            &&& v.2 == t.first_start()
            &&& v.3 == t.last_end()
        },
        r is None ==> !(t.well_formed() && t.axes_ok() && t.height() <= 33 && t.size() <= u32::MAX
            + 1),
    decreases t,
{
    match t {
        BvhTreeNode::Leaf(l) => {
            if l.range.start < l.range.end && l.range.end - l.range.start <= 65535 {
                Some((1, 1, l.range.start, l.range.end))
            } else {
                None
            }
        },
        BvhTreeNode::Interior(i) => {
            if i.split_axis >= 3 {
                return None;
            }
            let left = checked_shape(&*i.left);
            let right = checked_shape(&*i.right);
            match (left, right) {
                (Some(lv), Some(rv)) => {
                    let (ls, lh, lf, ll) = lv;
                    let (rs, rh, rf, rl) = rv;
                    let h = if lh >= rh {
                        lh
                    } else {
                        rh
                    };
                    if ll != rf || h >= 33 || ls + rs >= 0x1_0000_0000 {
                        None
                    } else {
                        Some((1 + ls + rs, 1 + h, lf, rl))
                    }
                },
                _ => None,
            }
        },
    }
}

impl<B> BvhTreeNode<B> {
    /// A finished build tree over `primitive_count` primitives that `Bvh::from_tree` lays
    /// out and `Bvh::traverse` can walk with its 32-entry stack.
    pub open spec fn walkable(self, primitive_count: int) -> bool {
        &&& self.well_formed()
        &&& self.axes_ok()
        &&& self.height() <= 33
        &&& self.size() <= u32::MAX + 1
        &&& self.size() <= usize::MAX
        &&& self.first_start() == 0
        &&& self.last_end() == primitive_count
        &&& primitive_count <= u32::MAX
    }

    /// Whether the tree is `walkable` over `primitive_count` primitives.
    pub fn is_walkable(&self, primitive_count: usize) -> (ok: bool)
        ensures
            ok == self.walkable(primitive_count as int),
    {
        match checked_shape(self) {
            Some(v) => {
                let (size, _height, first, last) = v;
                size <= usize::MAX as u64 && first == 0 && last == primitive_count
                    && primitive_count <= 0xffff_ffff
            },
            None => false,
        }
    }
}

/// Leaves stop being split at this depth (the root has depth 1).
pub const MAX_BVH_DEPTH: usize = 32;

/// Leaves with at most this many primitives are not split.
pub const MAX_LEAF_PRIMITIVES: usize = 4;

/// Number of buckets primitive centroids are sorted into along each axis when looking for
/// a split.
pub const BUCKET_COUNT: usize = 12;

/// Whether a leaf of `primitive_count` primitives at `depth` stays a leaf.
pub fn stops_splitting(primitive_count: usize, depth: usize) -> (stop: bool)
    ensures
        stop == (primitive_count <= MAX_LEAF_PRIMITIVES || depth == MAX_BVH_DEPTH),
{
    primitive_count <= MAX_LEAF_PRIMITIVES || depth == MAX_BVH_DEPTH
}

impl<B> BvhTreeNodeLeaf<B> {
    /// Turns the leaf into an interior node whose left child holds its first `head`
    /// primitives and whose right child holds the rest, one level deeper.
    pub fn split(
        self,
        head: usize,
        split_axis: usize,
        left_bounds: B,
        right_bounds: B,
    ) -> (node: BvhTreeNode<B>)
        requires
            self.range.start <= self.range.end,
            head <= self.range.end - self.range.start,
            self.depth < usize::MAX,
        ensures
            node == BvhTreeNode::Interior(
                BvhTreeNodeInterior {
                    bounds: self.bounds,
                    depth: self.depth,
                    split_axis: split_axis,
                    left: Box::new(
                        BvhTreeNode::Leaf(
                            BvhTreeNodeLeaf {
                                bounds: left_bounds,
                                depth: (self.depth + 1) as usize,
                                range: Range {
                                    start: self.range.start,
                                    end: (self.range.start + head) as usize,
                                },
                            },
                        ),
                    ),
                    right: Box::new(
                        BvhTreeNode::Leaf(
                            BvhTreeNodeLeaf {
                                bounds: right_bounds,
                                depth: (self.depth + 1) as usize,
                                range: Range {
                                    start: (self.range.start + head) as usize,
                                    end: self.range.end,
                                },
                            },
                        ),
                    ),
                },
            ),
            node.first_start() == self.range.start,
            node.last_end() == self.range.end,
            0 < head <= u16::MAX && head < self.range.end - self.range.start
                && self.range.end - self.range.start - head <= u16::MAX ==> node.well_formed(),
            node.height() == 2,
            split_axis < 3 ==> node.axes_ok(),
    {
        let mid = self.range.start + head;
        let left = Box::new(
            BvhTreeNode::Leaf(
                BvhTreeNodeLeaf {
                    bounds: left_bounds,
                    range: self.range.start..mid,
                    depth: self.depth + 1,
                },
            ),
        );
        let right = Box::new(
            BvhTreeNode::Leaf(
                BvhTreeNodeLeaf {
                    bounds: right_bounds,
                    range: mid..self.range.end,
                    depth: self.depth + 1,
                },
            ),
        );
        let ghost l = *left;
        let ghost r = *right;
        proof {
            assert(l.first_start() == self.range.start);
            assert(l.last_end() == mid);
            assert(r.first_start() == mid);
            assert(r.last_end() == self.range.end);
            assert(l.height() == 1 && r.height() == 1);
            assert(l.axes_ok() && r.axes_ok());
            if 0 < head <= u16::MAX && head < self.range.end - self.range.start
                && self.range.end - self.range.start - head <= u16::MAX {
                assert(l.well_formed());
                assert(r.well_formed());
            }
        }
        BvhTreeNode::Interior(
            BvhTreeNodeInterior {
                bounds: self.bounds,
                depth: self.depth,
                split_axis,
                left,
                right,
            },
        )
    }
}

/// Which coordinates of corner `idx` (0 to 7) of a box come from the maximum corner:
/// bit 0 selects x, bit 1 selects y, bit 2 selects z.
pub fn corner_uses_max(idx: usize) -> (m: (bool, bool, bool))
    ensures
        m == ((idx & 1) != 0, (idx & 2) != 0, (idx & 4) != 0),
{
    ((idx & 0b1) != 0, (idx & 0b10) != 0, (idx & 0b100) != 0)
}


impl<B> BvhTreeNode<B> {
    /// The depth recorded in the root node.
    pub open spec fn root_depth(self) -> int {
        match self {
            BvhTreeNode::Leaf(l) => l.depth as int,
            BvhTreeNode::Interior(i) => i.depth as int,
        }
    }

    /// Every child records one more level than its parent, as `split` makes them, and no
    /// interior node sits at `MAX_BVH_DEPTH`, where `stops_splitting` keeps leaves.
    pub open spec fn built_by_splitting(self) -> bool
        decreases self,
    {
        match self {
            BvhTreeNode::Leaf(l) => l.depth <= MAX_BVH_DEPTH,
            BvhTreeNode::Interior(i) => {
                &&& i.depth < MAX_BVH_DEPTH
                &&& i.left.root_depth() == i.depth + 1
                &&& i.right.root_depth() == i.depth + 1
                &&& i.left.built_by_splitting()
                &&& i.right.built_by_splitting()
            },
        }
    }
}

/// A tree grown by splitting leaves, which stops at `MAX_BVH_DEPTH`, is never taller than
/// the levels left below its root; grown from a root at depth 1 it is short enough for the
/// 32-entry stack of `Bvh::traverse`.
pub proof fn lemma_split_tree_height<B>(t: BvhTreeNode<B>)
    requires
        t.built_by_splitting(),
        t.root_depth() >= 1,
    ensures
        t.root_depth() + t.height() - 1 <= MAX_BVH_DEPTH,
        t.root_depth() == 1 ==> t.height() <= 33,
    decreases t,
{
    match t {
        BvhTreeNode::Leaf(_) => {},
        BvhTreeNode::Interior(i) => {
            lemma_split_tree_height(*i.left);
            lemma_split_tree_height(*i.right);
        },
    }
}

/// `after` holds the elements of `before`, each exactly once, in some order.
pub open spec fn permutes<T>(after: Seq<T>, before: Seq<T>) -> bool {
    &&& after.len() == before.len()
    &&& exists|perm: Seq<int>|
        #![trigger is_permutation(perm, before.len() as int)]
        is_permutation(perm, before.len() as int) && forall|k: int|
            0 <= k < after.len() ==> #[trigger] after[k] == before[perm[k]]
}

/// Reordering the two halves of a reordered sequence separately reorders the whole.
proof fn lemma_permutes_halves<T>(before: Seq<T>, mid: Seq<T>, after: Seq<T>, h: int)
    requires
        permutes(mid, before),
        0 <= h <= mid.len(),
        after.len() == mid.len(),
        permutes(after.subrange(0, h), mid.subrange(0, h)),
        permutes(after.subrange(h, after.len() as int), mid.subrange(h, mid.len() as int)),
    ensures
        permutes(after, before),
{
    let n = before.len() as int;
    let p1 = choose|perm: Seq<int>|
        #![trigger is_permutation(perm, n)]
        is_permutation(perm, n) && forall|k: int| 0 <= k < mid.len() ==> #[trigger] mid[k] == before[perm[k]];
    let lo_a = after.subrange(0, h);
    let lo_m = mid.subrange(0, h);
    let hi_a = after.subrange(h, n);
    let hi_m = mid.subrange(h, n);
    let pl = choose|perm: Seq<int>|
        #![trigger is_permutation(perm, h)]
        is_permutation(perm, h) && forall|k: int| 0 <= k < lo_a.len() ==> #[trigger] lo_a[k] == lo_m[perm[k]];
    let ph = choose|perm: Seq<int>|
        #![trigger is_permutation(perm, n - h)]
        is_permutation(perm, n - h) && forall|k: int|
            0 <= k < hi_a.len() ==> #[trigger] hi_a[k] == hi_m[perm[k]];
    let q = Seq::new(n as nat, |k: int| if k < h { pl[k] } else { h + ph[k - h] });
    let c = Seq::new(n as nat, |k: int| p1[q[k]]);
    assert forall|k: int| 0 <= k < n implies 0 <= #[trigger] q[k] < n by {
        if k < h {
            assert(0 <= pl[k] < h);
        } else {
            assert(0 <= ph[k - h] < n - h);
        }
    }
    assert forall|i: int, j: int| 0 <= i < j < n implies q[i] != q[j] by {
        if i < h && j < h {
            assert(pl[i] != pl[j]);
        } else if i >= h && j >= h {
            assert(ph[i - h] != ph[j - h]);
        } else if i < h {
            assert(0 <= pl[i] < h);
            assert(0 <= ph[j - h]);
        }
    }
    assert forall|k: int| 0 <= k < n implies 0 <= #[trigger] c[k] < n by {
        assert(0 <= q[k] < n);
    }
    assert forall|i: int, j: int| 0 <= i < j < n implies c[i] != c[j] by {
        assert(q[i] != q[j]);
        assert(0 <= q[i] < n && 0 <= q[j] < n);
        if q[i] < q[j] {
            assert(p1[q[i]] != p1[q[j]]);
        } else {
            assert(p1[q[j]] != p1[q[i]]);
        }
    }
    assert forall|k: int| 0 <= k < after.len() implies #[trigger] after[k] == before[c[k]] by {
        if k < h {
            assert(after[k] == lo_a[k]);
            assert(lo_a[k] == lo_m[pl[k]]);
            assert(0 <= pl[k] < h);
            assert(lo_m[pl[k]] == mid[pl[k]]);
        } else {
            assert(after[k] == hi_a[k - h]);
            assert(hi_a[k - h] == hi_m[ph[k - h]]);
            assert(0 <= ph[k - h] < n - h);
            assert(hi_m[ph[k - h]] == mid[h + ph[k - h]]);
        }
        assert(0 <= q[k] < n);
        assert(mid[q[k]] == before[p1[q[k]]]);
    }
    assert(is_permutation(c, n));
}

/// The split the build's cost model chooses for a leaf: along `split_axis`, the primitives
/// whose bucket lies below `split_index` go left, with the two children's bounds.
pub struct SplitChoice<B> {
    pub split_axis: usize,
    pub split_index: u32,
    pub left_bounds: B,
    pub right_bounds: B,
}

/// The cost model of a build (surface-area heuristic): whether and how to split a leaf,
/// and the bucket of a primitive along an axis within a leaf's bounds.
pub trait SplitPlanner<P, B> {
    /// The split to make, or `None` to keep the leaf.
    fn choose_split(&self, leaf: &BvhTreeNodeLeaf<B>, primitives: &[P]) -> Option<SplitChoice<B>>;

    /// Bucket of `primitive` along `axis` within the bounds of `leaf`.
    fn bucket(&self, leaf: &BvhTreeNodeLeaf<B>, axis: usize, primitive: &P) -> u32;
}

/// Read left to right, the leaves of the tree cover one contiguous run of primitives.
pub open spec fn tiles_run<B>(t: BvhTreeNode<B>) -> bool
    decreases t,
{
    match t {
        BvhTreeNode::Leaf(l) => l.range.start <= l.range.end,
        BvhTreeNode::Interior(i) => {
            &&& tiles_run(*i.left)
            &&& tiles_run(*i.right)
            &&& i.left.last_end() == i.right.first_start()
        },
    }
}

proof fn lemma_tiles_run_span<B>(t: BvhTreeNode<B>)
    requires
        tiles_run(t),
    ensures
        t.first_start() <= t.last_end(),
    decreases t,
{
    if let BvhTreeNode::Interior(i) = t {
        lemma_tiles_run_span(*i.left);
        lemma_tiles_run_span(*i.right);
    }
}

/// Primitives of a leaf, one per bucket of `axis`, as the cost model assigns them.
fn leaf_buckets<P, B, S: SplitPlanner<P, B>>(
    planner: &S,
    leaf: &BvhTreeNodeLeaf<B>,
    axis: usize,
    primitives: &[P],
) -> (buckets: Vec<u32>)
    ensures
        buckets@.len() == primitives@.len(),
        forall|k: int|
            0 <= k < buckets@.len() ==> call_ensures(
                S::bucket,
                (planner, leaf, axis, &primitives@[k]),
                #[trigger] buckets@[k],
            ),
{
    let mut buckets: Vec<u32> = Vec::new();
    let mut k: usize = 0;
    while k < primitives.len()
        invariant
            k <= primitives@.len(),
            buckets@.len() == k,
            forall|j: int|
                0 <= j < buckets@.len() ==> call_ensures(
                    S::bucket,
                    (planner, leaf, axis, &primitives@[j]),
                    #[trigger] buckets@[j],
                ),
        decreases primitives@.len() - k,
    {
        let b = planner.bucket(leaf, axis, &primitives[k]);
        buckets.push(b);
        k = k + 1;
    }
    buckets
}

/// The leaf inside a node known to be a leaf.
fn into_leaf<B>(t: BvhTreeNode<B>) -> (l: BvhTreeNodeLeaf<B>)
    requires
        t is Leaf,
    ensures
        t == BvhTreeNode::Leaf(l),
{
    match t {
        BvhTreeNode::Leaf(l) => l,
        BvhTreeNode::Interior(_) => vstd::pervasive::unreached(),
    }
}

/// The cost model put `p` in a bucket below `split_index` when sorting it along `axis`
/// within `leaf`.
pub open spec fn sorted_below<P, B, S: SplitPlanner<P, B>>(
    planner: &S,
    leaf: &BvhTreeNodeLeaf<B>,
    axis: usize,
    split_index: u32,
    p: &P,
) -> bool {
    exists|b: u32| #[trigger] call_ensures(S::bucket, (planner, leaf, axis, p), b) && b < split_index
}

/// The cost model put `p` in a bucket at or above `split_index` when sorting it along
/// `axis` within `leaf`.
pub open spec fn sorted_not_below<P, B, S: SplitPlanner<P, B>>(
    planner: &S,
    leaf: &BvhTreeNodeLeaf<B>,
    axis: usize,
    split_index: u32,
    p: &P,
) -> bool {
    exists|b: u32|
        #[trigger] call_ensures(S::bucket, (planner, leaf, axis, p), b) && b >= split_index
}

impl<B> BvhTreeNode<B> {
    /// The bounds recorded in the root node.
    pub open spec fn node_bounds(self) -> B {
        match self {
            BvhTreeNode::Leaf(l) => l.bounds,
            BvhTreeNode::Interior(i) => i.bounds,
        }
    }
}

/// Reordering keeps a property that every element has.
proof fn lemma_permutes_keeps<T>(after: Seq<T>, before: Seq<T>, pred: spec_fn(T) -> bool)
    requires
        permutes(after, before),
        forall|k: int| 0 <= k < before.len() ==> pred(#[trigger] before[k]),
    ensures
        forall|k: int| 0 <= k < after.len() ==> pred(#[trigger] after[k]),
{
    let perm = choose|perm: Seq<int>|
        #![trigger is_permutation(perm, before.len() as int)]
        is_permutation(perm, before.len() as int) && forall|k: int|
            0 <= k < after.len() ==> #[trigger] after[k] == before[perm[k]];
    assert forall|k: int| 0 <= k < after.len() implies pred(#[trigger] after[k]) by {
        assert(after[k] == before[perm[k]]);
        assert(pred(before[perm[k]]));
    }
}

/// Grows the build tree from `leaf`, whose run holds exactly `primitives`: a leaf of at most
/// `MAX_LEAF_PRIMITIVES` primitives, or at `MAX_BVH_DEPTH`, or one the cost model keeps,
/// stays a leaf; otherwise its primitives are partitioned by the bucket the cost model
/// gives them along the chosen axis, the leaf is split there (the children getting the
/// chosen bounds) and both children are grown in turn. The primitives end up reordered:
/// those of the left child's run are exactly the ones sorted below the split bucket along
/// the split axis, the others lie in the right child's run. The leaves of the tree cover
/// the leaf's run left to right, every child lies one level below its parent, and a tree
/// grown from depth 1 is at most 33 levels high.
pub fn build_tree<P, B, S: SplitPlanner<P, B>>(
    leaf: BvhTreeNodeLeaf<B>,
    primitives: &mut [P],
    planner: &S,
) -> (t: BvhTreeNode<B>)
    requires
        leaf.range.start <= leaf.range.end,
        leaf.range.end - leaf.range.start == old(primitives)@.len(),
        1 <= leaf.depth <= MAX_BVH_DEPTH,
    ensures
        permutes(final(primitives)@, old(primitives)@),
        tiles_run(t),
        t.first_start() == leaf.range.start,
        t.last_end() == leaf.range.end,
        t.built_by_splitting(),
        t.root_depth() == leaf.depth,
        t.node_bounds() == leaf.bounds,
        (old(primitives)@.len() <= MAX_LEAF_PRIMITIVES || leaf.depth == MAX_BVH_DEPTH) ==> t
            == BvhTreeNode::Leaf(leaf),
        leaf.depth == 1 ==> t.height() <= 33,
        t is Interior ==> exists|c: SplitChoice<B>|
            #![trigger call_ensures(S::choose_split, (planner, &leaf, &*old(primitives)), Some(c))]
            {
                let i = t->Interior_0;
                let mid = i.left.last_end() - leaf.range.start;
                &&& call_ensures(S::choose_split, (planner, &leaf, &*old(primitives)), Some(c))
                &&& i.split_axis == c.split_axis
                &&& i.left.node_bounds() == c.left_bounds
                &&& i.right.node_bounds() == c.right_bounds
                &&& forall|k: int|
                    0 <= k < mid ==> sorted_below(
                        planner,
                        &leaf,
                        c.split_axis,
                        c.split_index,
                        &#[trigger] final(primitives)@[k],
                    )
                &&& forall|k: int|
                    mid <= k < final(primitives)@.len() ==> sorted_not_below(
                        planner,
                        &leaf,
                        c.split_axis,
                        c.split_index,
                        &#[trigger] final(primitives)@[k],
                    )
            },
    decreases MAX_BVH_DEPTH - leaf.depth,
{
    let count = primitives.len();
    let ghost before = primitives@;
    proof {
        let id = Seq::new(count as nat, |k: int| k);
        assert(is_permutation(id, count as int));
        assert(forall|k: int| 0 <= k < before.len() ==> #[trigger] before[k] == before[id[k]]);
    }
    if stops_splitting(count, leaf.depth) {
        return BvhTreeNode::Leaf(leaf);
    }
    let choice = planner.choose_split(&leaf, primitives);
    let ghost choice_g = choice;
    proof {
        assert(call_ensures(S::choose_split, (planner, &leaf, &*old(primitives)), choice_g));
    }
    match choice {
        None => BvhTreeNode::Leaf(leaf),
        Some(c) => {
            let ghost cg = c;
            let ghost lg = leaf;
            let mut buckets = leaf_buckets(planner, &leaf, c.split_axis, primitives);
            let ghost b_old = buckets@;
            let head = partition_by_bucket(primitives, buckets.as_mut_slice(), c.split_index);
            let ghost mid = primitives@;
            let ghost b_mid = buckets@;
            proof {
                assert(permutes(mid, before));
                let perm = choose|perm: Seq<int>|
                    #![trigger is_permutation(perm, before.len() as int)]
                    {
                        &&& is_permutation(perm, before.len() as int)
                        &&& forall|k: int|
                            0 <= k < perm.len() ==> #[trigger] mid[k] == before[perm[k]]
                                && b_mid[k] == b_old[perm[k]]
                    };
                assert forall|k: int| 0 <= k < head implies sorted_below(
                    planner,
                    &lg,
                    cg.split_axis,
                    cg.split_index,
                    &#[trigger] mid[k],
                ) by {
                    assert(mid[k] == before[perm[k]]);
                    assert(b_mid[k] == b_old[perm[k]]);
                    assert(call_ensures(
                        S::bucket,
                        (planner, &lg, cg.split_axis, &before[perm[k]]),
                        b_old[perm[k]],
                    ));
                }
                assert forall|k: int| head <= k < mid.len() implies sorted_not_below(
                    planner,
                    &lg,
                    cg.split_axis,
                    cg.split_index,
                    &#[trigger] mid[k],
                ) by {
                    assert(mid[k] == before[perm[k]]);
                    assert(b_mid[k] == b_old[perm[k]]);
                    assert(call_ensures(
                        S::bucket,
                        (planner, &lg, cg.split_axis, &before[perm[k]]),
                        b_old[perm[k]],
                    ));
                }
            }
            let node = leaf.split(head, c.split_axis, c.left_bounds, c.right_bounds);
            match node {
                BvhTreeNode::Leaf(_) => vstd::pervasive::unreached(),
                BvhTreeNode::Interior(i) => {
                    let BvhTreeNodeInterior { bounds, depth, split_axis, left, right } = i;
                    let left_leaf = into_leaf(*left);
                    let right_leaf = into_leaf(*right);
                    let (lo, hi) = primitives.split_at_mut(head);
                    let left_tree = build_tree(left_leaf, lo, planner);
                    let right_tree = build_tree(right_leaf, hi, planner);
                    proof {
                        let fin = primitives@;
                        lemma_permutes_halves(before, mid, fin, head as int);
                        let below = |p: P| sorted_below(
                            planner,
                            &lg,
                            cg.split_axis,
                            cg.split_index,
                            &p,
                        );
                        let not_below = |p: P| sorted_not_below(
                            planner,
                            &lg,
                            cg.split_axis,
                            cg.split_index,
                            &p,
                        );
                        assert(head <= mid.len());
                        let lo_m = mid.subrange(0, head as int);
                        let hi_m = mid.subrange(head as int, mid.len() as int);
                        let lo_f = fin.subrange(0, head as int);
                        let hi_f = fin.subrange(head as int, fin.len() as int);
                        assert forall|k: int| 0 <= k < lo_m.len() implies below(
                            #[trigger] lo_m[k],
                        ) by {
                            assert(lo_m[k] == mid[k]);
                        }
                        assert forall|k: int| 0 <= k < hi_m.len() implies not_below(
                            #[trigger] hi_m[k],
                        ) by {
                            assert(hi_m[k] == mid[head + k]);
                        }
                        assert(lo_f =~= lo@);
                        assert(hi_f =~= hi@);
                        lemma_permutes_keeps(lo_f, lo_m, below);
                        lemma_permutes_keeps(hi_f, hi_m, not_below);
                        assert forall|k: int| 0 <= k < head implies sorted_below(
                            planner,
                            &lg,
                            cg.split_axis,
                            cg.split_index,
                            &#[trigger] fin[k],
                        ) by {
                            assert(fin[k] == lo_f[k]);
                            assert(below(lo_f[k]));
                        }
                        assert forall|k: int| head <= k < fin.len() implies sorted_not_below(
                            planner,
                            &lg,
                            cg.split_axis,
                            cg.split_index,
                            &#[trigger] fin[k],
                        ) by {
                            assert(fin[k] == hi_f[k - head]);
                            assert(not_below(hi_f[k - head]));
                        }
                    }
                    let t = BvhTreeNode::Interior(
                        BvhTreeNodeInterior {
                            bounds,
                            depth,
                            split_axis,
                            left: Box::new(left_tree),
                            right: Box::new(right_tree),
                        },
                    );
                    proof {
                        if leaf.depth == 1 {
                            lemma_split_tree_height(t);
                        }
                        assert(choice_g == Some(cg));
                    }
                    t
                },
            }
        },
    }
}

} // verus!
