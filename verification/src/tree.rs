//! Geometry of the complete binary tree.
//!
//! Nodes are numbered as in a binary heap: the root is 0 and the children of `n` are `2n + 1` and
//! `2n + 2`. With `num_leaves` a power of two, the leaves are the nodes from `num_leaves - 1` on.

use vstd::arithmetic::power2::{is_pow2, pow2};
use vstd::prelude::*;

verus! {

/// The parent of a node other than the root.
pub open spec fn parent(node: int) -> int {
    (node - 1) / 2
}

/// The nodes from the root down to `node`.
pub open spec fn path_to(node: int) -> Seq<int>
    decreases node,
{
    if node <= 0 {
        seq![0int]
    } else {
        path_to(parent(node)).push(node)
    }
}

/// Whether `a` is `node` or one of its ancestors.
pub open spec fn on_path(a: int, node: int) -> bool
    decreases node,
{
    a == node || (node > 0 && on_path(a, parent(node)))
}

/// The node of leaf number `leaf`.
pub open spec fn leaf_node(num_leaves: int, leaf: int) -> int {
    num_leaves - 1 + leaf
}

/// Node numbers as integers.
pub open spec fn as_ints(nodes: Seq<usize>) -> Seq<int> {
    nodes.map_values(|n: usize| n as int)
}

/// A path starts at the root, ends at its node, goes from parent to child, and its numbers grow
/// (so no node occurs twice).
pub proof fn path_shape(node: int)
    requires
        node >= 0,
    ensures
        path_to(node).len() >= 1,
        path_to(node)[0] == 0,
        path_to(node).last() == node,
        forall|i: int| 0 <= i < path_to(node).len() ==> 0 <= #[trigger] path_to(node)[i] <= node,
        forall|i: int, j: int|
            0 <= i < j < path_to(node).len() ==> #[trigger] path_to(node)[i]
                < #[trigger] path_to(node)[j],
        forall|i: int|
            0 < i < path_to(node).len() ==> path_to(node)[i - 1] == parent(
                #[trigger] path_to(node)[i],
            ),
    decreases node,
{
    if node > 0 {
        path_shape(parent(node));
    }
}

/// The ancestors of a node, itself included, are the nodes on its path.
pub proof fn ancestors_are_path(a: int, node: int)
    requires
        node >= 0,
    ensures
        on_path(a, node) <==> path_to(node).contains(a),
    decreases node,
{
    let path = path_to(node);
    if node == 0 {
        assert(path[0] == 0);
    } else {
        let up = path_to(parent(node));
        ancestors_are_path(a, parent(node));
        assert(path.last() == node);
        if up.contains(a) {
            let i = choose|i: int| 0 <= i < up.len() && up[i] == a;
            assert(path[i] == a);
        }
        if path.contains(a) && a != node {
            let i = choose|i: int| 0 <= i < path.len() && path[i] == a;
            assert(up[i] == a);
        }
    }
}

/// On a path each node is followed by one of its two children.
pub proof fn path_goes_to_children(node: int)
    requires
        node >= 0,
    ensures
        path_to(node)[0] == 0,
        path_to(node).last() == node,
        forall|i: int|
            0 < i < path_to(node).len() ==> #[trigger] path_to(node)[i] == 2 * path_to(node)[i - 1]
                + 1 || path_to(node)[i] == 2 * path_to(node)[i - 1] + 2,
{
    path_shape(node);
}

/// With the nodes counted from 1, a node's ancestors are what repeated halving gives: `a` is `node`
/// or above it if and only if `a + 1` is `node + 1` divided by a power of two.
pub proof fn ancestors_by_halving(a: int, node: int)
    requires
        a >= 0,
        node >= 0,
    ensures
        on_path(a, node) <==> exists|k: nat| a + 1 == (node + 1) / (#[trigger] pow2(k) as int),
        path_to(node).contains(a) <==> exists|k: nat|
            a + 1 == (node + 1) / (#[trigger] pow2(k) as int),
    decreases node,
{
    vstd::arithmetic::power2::lemma2_to64();
    ancestors_are_path(a, node);
    assert((node + 1) / (pow2(0) as int) == node + 1);
    if node > 0 {
        let up = parent(node);
        ancestors_by_halving(a, up);
        assert forall|k: nat| #[trigger] pow2(k + 1) > 0 && (node + 1) / (pow2(k + 1) as int) == (up
            + 1) / (pow2(k) as int) by {
            vstd::arithmetic::power2::lemma_pow2_unfold(k + 1);
            vstd::arithmetic::power2::lemma_pow2_pos(k);
            vstd::arithmetic::div_mod::lemma_div_denominator(node + 1, 2, pow2(k) as int);
        }
        if on_path(a, up) {
            let k = choose|k: nat| a + 1 == (up + 1) / (#[trigger] pow2(k) as int);
            assert(pow2(k + 1) > 0);
        }
        if exists|k: nat| a + 1 == (node + 1) / (#[trigger] pow2(k) as int) {
            let k = choose|k: nat| a + 1 == (node + 1) / (#[trigger] pow2(k) as int);
            if k > 0 {
                assert(pow2((k - 1) as nat + 1) > 0);
            }
        }
    } else {
        if exists|k: nat| a + 1 == (node + 1) / (#[trigger] pow2(k) as int) {
            let k = choose|k: nat| a + 1 == (node + 1) / (#[trigger] pow2(k) as int);
            vstd::arithmetic::power2::lemma_pow2_pos(k);
            assert(1int / (pow2(k) as int) <= 1) by (nonlinear_arith)
                requires
                    pow2(k) > 0,
            ;
        }
    }
}

/// Leaf number `leaf` is node `num_leaves - 1 + leaf`, so the nodes above it, itself included, are
/// those that repeated halving of `num_leaves + leaf` gives.
pub proof fn leaf_ancestors_by_halving(a: int, num_leaves: int, leaf: int)
    requires
        a >= 0,
        num_leaves >= 1,
        leaf >= 0,
    ensures
        leaf_node(num_leaves, leaf) == num_leaves - 1 + leaf,
        on_path(a, leaf_node(num_leaves, leaf)) <==> exists|k: nat|
            a + 1 == (num_leaves + leaf) / (#[trigger] pow2(k) as int),
        path_to(leaf_node(num_leaves, leaf)).contains(a) <==> exists|k: nat|
            a + 1 == (num_leaves + leaf) / (#[trigger] pow2(k) as int),
{
    ancestors_by_halving(a, leaf_node(num_leaves, leaf));
}

/// On level `k` of the tree (the root is level 0) every path has `k + 1` nodes.
pub proof fn path_length_on_level(node: int, k: nat)
    requires
        pow2(k) - 1 <= node < pow2(k + 1) - 1,
    ensures
        path_to(node).len() == k + 1,
    decreases k,
{
    vstd::arithmetic::power2::lemma_pow2_unfold(k + 1);
    if k == 0 {
        vstd::arithmetic::power2::lemma2_to64();
    } else {
        vstd::arithmetic::power2::lemma_pow2_unfold(k);
        vstd::arithmetic::power2::lemma_pow2_pos((k - 1) as nat);
        path_length_on_level(parent(node), (k - 1) as nat);
    }
}

/// All root-to-leaf paths of a tree are equally long: `k + 1` nodes where there are `2^k` leaves.
pub proof fn leaf_paths_equally_long(num_leaves: int, leaf: int, k: nat)
    requires
        num_leaves == pow2(k),
        0 <= leaf < num_leaves,
    ensures
        path_to(leaf_node(num_leaves, leaf)).len() == k + 1,
{
    vstd::arithmetic::power2::lemma_pow2_unfold(k + 1);
    path_length_on_level(leaf_node(num_leaves, leaf), k);
}

/// The smallest power of two that is at least `n`.
pub fn next_power_of_two(n: usize) -> (p: usize)
    requires
        n <= usize::MAX / 2 + 1,
    ensures
        is_pow2(p as int),
        n <= p,
        forall|q: int| is_pow2(q) && n <= q ==> p <= q,
{
    let mut p: usize = 1;
    proof {
        reveal(is_pow2);
    }
    while p < n
        invariant
            n <= usize::MAX / 2 + 1,
            is_pow2(p as int),
            1 <= p,
            forall|q: int| is_pow2(q) && n <= q ==> p <= q,
        decreases 2 * n - p,
    {
        assert forall|q: int| is_pow2(q) && n <= q implies 2 * p <= q by {
            lemma_pow2_gap(p as int, q);
        }
        p = 2 * p;
        assert(is_pow2(p as int)) by {
            reveal(is_pow2);
        }
    }
    p
}

/// Between a power of two and its double there is no other.
proof fn lemma_pow2_gap(p: int, q: int)
    requires
        is_pow2(p),
        is_pow2(q),
        p < q,
    ensures
        2 * p <= q,
    decreases p,
{
    reveal(is_pow2);
    if p > 1 {
        lemma_pow2_gap(p / 2, q / 2);
    }
}

} // verus!
