//! The server: a tree of buckets of ciphertext slots.

use crate::block::Leaf;
use crate::tree::{
    as_ints, leaf_ancestors_by_halving, leaf_node, on_path, path_goes_to_children, path_shape, path_to,
};
use vstd::arithmetic::power2::{is_pow2, pow2};
use vstd::prelude::*;

verus! {

/// The slots of one node.
pub struct EncBucket {
    pub slots: Vec<Vec<u8>>,
}

impl View for EncBucket {
    type V = Seq<Seq<u8>>;

    open spec fn view(&self) -> Seq<Seq<u8>> {
        self.slots@.map_values(|s: Vec<u8>| s@)
    }
}

impl EncBucket {
    pub fn new(slots: Vec<Vec<u8>>) -> (b: Self)
        ensures
            b.slots == slots,
            b@ == slots@.map_values(|s: Vec<u8>| s@),
    {
        Self { slots }
    }
}

impl Clone for EncBucket {
    fn clone(&self) -> (res: Self)
        ensures
            res@ == self@,
            res.slots@.len() == self.slots@.len(),
            forall|s: int|
                0 <= s < self.slots@.len() ==> (#[trigger] res.slots@[s])@ == self.slots@[s]@,
    {
        let slots = self.slots.clone();
        assert forall|i: int| 0 <= i < self.slots@.len() implies #[trigger] slots@[i]@
            == self.slots@[i]@ by {
            assert(cloned::<Vec<u8>>(self.slots@[i], slots@[i]));
            assert(slots@[i]@ =~= self.slots@[i]@);
        }
        let res = EncBucket { slots };
        assert(res@ =~= self@);
        res
    }
}

/// The slots of a list of buckets.
pub open spec fn bucket_views(buckets: Seq<EncBucket>) -> Seq<Seq<Seq<u8>>> {
    buckets.map_values(|b: EncBucket| b@)
}

/// A complete binary tree of buckets, held by someone who is not to learn what is in them.
pub struct OramServer {
    /// A power of two.
    pub num_leaves: usize,
    /// Slots per bucket.
    pub z: usize,
    /// The buckets, in heap order.
    pub tree: Vec<EncBucket>,
}

/// The slots of each node, in heap order.
impl View for OramServer {
    type V = Seq<Seq<Seq<u8>>>;

    open spec fn view(&self) -> Seq<Seq<Seq<u8>>> {
        bucket_views(self.tree@)
    }
}

/// `tree` after `buckets[i]` was stored at `nodes[i]`, for each `i` in turn.
pub open spec fn written<B>(tree: Seq<B>, nodes: Seq<int>, buckets: Seq<B>) -> Seq<B>
    decreases nodes.len(),
{
    if nodes.len() == 0 {
        tree
    } else {
        written(tree, nodes.drop_last(), buckets.drop_last()).update(nodes.last(), buckets.last())
    }
}

/// Where no node is named twice, each named node holds its new bucket after a write, and every
/// other node holds what it held before.
pub proof fn written_buckets_come_back<B>(tree: Seq<B>, nodes: Seq<int>, buckets: Seq<B>)
    requires
        nodes.len() == buckets.len(),
        nodes.no_duplicates(),
        forall|i: int| 0 <= i < nodes.len() ==> 0 <= #[trigger] nodes[i] < tree.len(),
    ensures
        written(tree, nodes, buckets).len() == tree.len(),
        forall|i: int|
            0 <= i < nodes.len() ==> written(tree, nodes, buckets)[#[trigger] nodes[i]]
                == buckets[i],
        forall|n: int|
            0 <= n < tree.len() && !nodes.contains(n) ==> #[trigger] written(tree, nodes, buckets)[n]
                == tree[n],
    decreases nodes.len(),
{
    if nodes.len() > 0 {
        let init = nodes.drop_last();
        assert forall|i: int| 0 <= i < init.len() implies 0 <= #[trigger] init[i] < tree.len() by {
            assert(init[i] == nodes[i]);
        }
        written_buckets_come_back(tree, init, buckets.drop_last());
        assert forall|i: int| 0 <= i < nodes.len() implies written(tree, nodes, buckets)[
        #[trigger] nodes[i]] == buckets[i] by {
            if i < init.len() {
                assert(init[i] == nodes[i]);
                assert(nodes[i] != nodes.last());
            }
        }
        assert forall|n: int| 0 <= n < tree.len() && !nodes.contains(n) implies #[trigger] written(
            tree,
            nodes,
            buckets,
        )[n] == tree[n] by {
            assert(nodes.contains(nodes.last()));
            if init.contains(n) {
                let i = choose|i: int| 0 <= i < init.len() && init[i] == n;
                assert(nodes[i] == n);
            }
        }
    }
}

impl OramServer {
    /// The number of nodes of a tree with `num_leaves` leaves.
    pub fn num_nodes(num_leaves: usize) -> (n: usize)
        requires
            1 <= num_leaves,
            2 * num_leaves <= usize::MAX,
        ensures
            n == 2 * num_leaves - 1,
    {
        2 * num_leaves - 1
    }

    pub fn new(num_leaves: usize, z: usize, tree: Vec<EncBucket>) -> (s: Self)
        requires
            is_pow2(num_leaves as int),
            tree@.len() == 2 * num_leaves - 1,
        ensures
            s.num_leaves == num_leaves,
            s.z == z,
            s.tree == tree,
            s@ == bucket_views(tree@),
    {
        Self { num_leaves, z, tree }
    }

    /// Whether the leaf's node has a number that a `usize` can hold.
    pub open spec fn has_node_index(&self, leaf: Leaf) -> bool {
        1 <= self.num_leaves && leaf_node(self.num_leaves as int, leaf as int) <= usize::MAX
    }

    /// The node of the leftmost leaf.
    pub fn leaf_base(&self) -> (n: usize)
        requires
            1 <= self.num_leaves,
        ensures
            n == self.num_leaves - 1,
    {
        self.num_leaves - 1
    }

    /// The node of a leaf.
    pub fn leaf_node_index(&self, leaf: Leaf) -> (n: usize)
        requires
            self.has_node_index(leaf),
        ensures
            n == leaf_node(self.num_leaves as int, leaf as int),
            n == self.num_leaves - 1 + leaf,
    {
        self.leaf_base() + (leaf as usize)
    }

    /// The nodes from the root to a leaf.
    pub fn path_nodes(&self, leaf: Leaf) -> (nodes: Vec<usize>)
        requires
            self.has_node_index(leaf),
        ensures
            as_ints(nodes@) == path_to(leaf_node(self.num_leaves as int, leaf as int)),
            nodes@.len() >= 1,
            nodes@[0] == 0,
            nodes@.last() == self.num_leaves - 1 + leaf,
            forall|i: int|
                0 < i < nodes@.len() ==> #[trigger] nodes@[i] == 2 * nodes@[i - 1] + 1 || nodes@[i]
                    == 2 * nodes@[i - 1] + 2,
    {
        let mut upward: Vec<usize> = Vec::new();
        let mut idx = self.leaf_node_index(leaf);
        let ghost path = path_to(idx as int);
        upward.push(idx);
        assert(path =~= path_to(idx as int).drop_last() + as_ints(upward@).reverse());
        while idx != 0
            invariant
                path == path_to(idx as int).drop_last() + as_ints(upward@).reverse(),
            decreases idx,
        {
            let ghost below = upward@;
            let ghost prefix = path_to(idx as int).drop_last();
            idx = (idx - 1) / 2;
            upward.push(idx);
            proof {
                assert(prefix =~= path_to(idx as int));
                path_shape(idx as int);
                assert(as_ints(upward@).reverse() =~= seq![idx as int] + as_ints(below).reverse());
                assert(prefix =~= prefix.drop_last() + seq![idx as int]);
                assert(path =~= path_to(idx as int).drop_last() + as_ints(upward@).reverse());
            }
        }
        assert(path =~= as_ints(upward@).reverse());
        let n: usize = upward.len();
        let mut nodes: Vec<usize> = Vec::with_capacity(n);
        let mut i: usize = 0;
        while i < n
            invariant
                i <= n == upward@.len(),
                nodes@.len() == i,
                forall|j: int| 0 <= j < i ==> #[trigger] nodes@[j] == upward@[n - 1 - j],
            decreases n - i,
        {
            nodes.push(upward[n - 1 - i]);
            i = i + 1;
        }
        assert(as_ints(nodes@) =~= as_ints(upward@).reverse());
        proof {
            let target = leaf_node(self.num_leaves as int, leaf as int);
            path_shape(target);
            path_goes_to_children(target);
            assert(forall|i: int| 0 <= i < nodes@.len() ==> path[i] == #[trigger] nodes@[i]);
        }
        nodes
    }

    /// The nodes from the root to a leaf, and their buckets.
    pub fn read_path(&self, leaf: Leaf) -> (r: (Vec<usize>, Vec<EncBucket>))
        requires
            1 <= self.num_leaves,
            leaf_node(self.num_leaves as int, leaf as int) < self.tree@.len(),
        ensures
            as_ints(r.0@) == path_to(leaf_node(self.num_leaves as int, leaf as int)),
            r.1@.len() == r.0@.len(),
            forall|i: int| 0 <= i < r.0@.len() ==> #[trigger] r.1@[i]@ == self@[r.0@[i] as int],
            r.0@.len() >= 1,
            r.0@[0] == 0,
            r.0@.last() == self.num_leaves - 1 + leaf,
            forall|i: int|
                0 < i < r.0@.len() ==> #[trigger] r.0@[i] == 2 * r.0@[i - 1] + 1 || r.0@[i] == 2
                    * r.0@[i - 1] + 2,
            forall|i: int|
                0 <= i < r.0@.len() ==> (#[trigger] r.1@[i]).slots@.len()
                    == self.tree@[r.0@[i] as int].slots@.len(),
            forall|i: int, s: int|
                0 <= i < r.0@.len() && 0 <= s < r.1@[i].slots@.len() ==> (
                #[trigger] r.1@[i].slots@[s])@ == self.tree@[r.0@[i] as int].slots@[s]@,
    {
        let ghost target = leaf_node(self.num_leaves as int, leaf as int);
        assert(self.tree.len() == self.tree@.len());
        let nodes = self.path_nodes(leaf);
        let mut buckets: Vec<EncBucket> = Vec::with_capacity(nodes.len());
        let mut i: usize = 0;
        while i < nodes.len()
            invariant
                i <= nodes@.len(),
                0 <= target < self.tree@.len(),
                as_ints(nodes@) == path_to(target),
                buckets@.len() == i,
                forall|j: int| 0 <= j < i ==> #[trigger] buckets@[j]@ == self@[nodes@[j] as int],
                forall|j: int|
                    0 <= j < i ==> (#[trigger] buckets@[j]).slots@.len()
                        == self.tree@[nodes@[j] as int].slots@.len(),
                forall|j: int, s: int|
                    0 <= j < i && 0 <= s < buckets@[j].slots@.len() ==> (
                    #[trigger] buckets@[j].slots@[s])@ == self.tree@[nodes@[j] as int].slots@[s]@,
            decreases nodes@.len() - i,
        {
            proof {
                path_shape(target);
                assert(as_ints(nodes@)[i as int] == nodes@[i as int]);
            }
            buckets.push(self.tree[nodes[i]].clone());
            i = i + 1;
        }
        (nodes, buckets)
    }

    /// Stores the buckets at the nodes, in order: where a node is named twice, the later bucket
    /// stays.
    pub fn write_path(&mut self, nodes_root_to_leaf: &[usize], buckets_root_to_leaf: Vec<EncBucket>)
        requires
            nodes_root_to_leaf@.len() == buckets_root_to_leaf@.len(),
            forall|i: int|
                0 <= i < nodes_root_to_leaf@.len() ==> #[trigger] nodes_root_to_leaf@[i] < old(
                    self,
                ).tree@.len(),
        ensures
            final(self)@ == written(
                old(self)@,
                as_ints(nodes_root_to_leaf@),
                bucket_views(buckets_root_to_leaf@),
            ),
            final(self)@.len() == old(self)@.len(),
            final(self).num_leaves == old(self).num_leaves,
            final(self).z == old(self).z,
            final(self).tree@.len() == old(self).tree@.len(),
            forall|i: int|
                0 <= i < nodes_root_to_leaf@.len() && (forall|j: int|
                    i < j < nodes_root_to_leaf@.len() ==> #[trigger] nodes_root_to_leaf@[j]
                        != nodes_root_to_leaf@[i])
                    ==> final(self).tree@[#[trigger] nodes_root_to_leaf@[i] as int]
                    == buckets_root_to_leaf@[i],
            forall|n: int|
                0 <= n < old(self).tree@.len() && (forall|j: int|
                    0 <= j < nodes_root_to_leaf@.len() ==> #[trigger] nodes_root_to_leaf@[j] != n)
                    ==> #[trigger] final(self).tree@[n] == old(self).tree@[n],
    {
        let ghost nodes = as_ints(nodes_root_to_leaf@);
        let ghost buckets = bucket_views(buckets_root_to_leaf@);
        let ghost tree = self@;
        let mut i: usize = 0;
        assert(nodes.take(0) =~= Seq::empty());
        for bucket in it: buckets_root_to_leaf.into_iter()
            invariant
                i == it.index(),
                it.seq() == buckets_root_to_leaf@,
                nodes == as_ints(nodes_root_to_leaf@),
                buckets == bucket_views(buckets_root_to_leaf@),
                nodes_root_to_leaf@.len() == buckets_root_to_leaf@.len(),
                forall|k: int|
                    0 <= k < nodes_root_to_leaf@.len() ==> #[trigger] nodes_root_to_leaf@[k]
                        < self.tree@.len(),
                self@ == written(tree, nodes.take(i as int), buckets.take(i as int)),
                self@.len() == tree.len(),
                self.num_leaves == old(self).num_leaves,
                self.z == old(self).z,
                self.tree@.len() == old(self).tree@.len(),
                forall|k: int|
                    0 <= k < i && (forall|j: int|
                        k < j < i ==> #[trigger] nodes_root_to_leaf@[j] != nodes_root_to_leaf@[k])
                        ==> self.tree@[#[trigger] nodes_root_to_leaf@[k] as int]
                        == buckets_root_to_leaf@[k],
                forall|n: int|
                    0 <= n < old(self).tree@.len() && (forall|j: int|
                        0 <= j < i ==> #[trigger] nodes_root_to_leaf@[j] != n)
                        ==> #[trigger] self.tree@[n] == old(self).tree@[n],
        {
            let ghost before = self@;
            let node = nodes_root_to_leaf[i];
            self.tree[node] = bucket;
            proof {
                assert(nodes.take(i + 1).drop_last() =~= nodes.take(i as int));
                assert(buckets.take(i + 1).drop_last() =~= buckets.take(i as int));
                assert(self@ =~= before.update(node as int, bucket@));
            }
            i = i + 1;
        }
        assert(nodes.take(nodes.len() as int) =~= nodes);
        assert(buckets.take(nodes.len() as int) =~= buckets);
    }

    /// Whether `node` is the leaf's node or one of its ancestors.
    pub fn is_ancestor(&self, node: usize, leaf: Leaf) -> (r: bool)
        requires
            self.has_node_index(leaf),
        ensures
            r == on_path(node as int, leaf_node(self.num_leaves as int, leaf as int)),
            r <==> exists|k: nat|
                node + 1 == (self.num_leaves + leaf) / (#[trigger] pow2(k) as int),
    {
        proof {
            leaf_ancestors_by_halving(node as int, self.num_leaves as int, leaf as int);
        }
        let mut x = self.leaf_node_index(leaf);
        let ghost target = x as int;
        loop
            invariant
                on_path(node as int, target) == on_path(node as int, x as int),
                target == leaf_node(self.num_leaves as int, leaf as int),
                on_path(node as int, target) <==> exists|k: nat|
                    node + 1 == (self.num_leaves + leaf) / (#[trigger] pow2(k) as int),
            decreases x,
        {
            if x == node {
                return true;
            }
            if x == 0 {
                return false;
            }
            x = (x - 1) / 2;
        }
    }
}

} // verus!
