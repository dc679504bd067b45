//! The store as a mathematical object: a tree of blocks in the clear, a stash and the leaf that
//! each block is assigned to; what an access does to them; and why the blocks' data survive it.

use crate::block::{dummy_block, real_block, zeros, BlockId, BlockView, Leaf};
use crate::placement::{distinct_ids, fits, kept, placed};
use crate::server::written;
use crate::tree::{leaf_node, path_to};
use vstd::arithmetic::power2::is_pow2;
use vstd::prelude::*;

verus! {

/// What the client and the server hold between them, in the clear.
#[verifier::ext_equal]
pub struct OramState {
    pub num_leaves: int,
    pub z: nat,
    pub block_size: nat,
    pub tree: Seq<Seq<BlockView>>,
    pub pos_map: Map<BlockId, Leaf>,
    pub stash: Seq<BlockView>,
}

/// The blocks of a bucket that carry data.
pub open spec fn reals(bucket: Seq<BlockView>) -> Seq<BlockView>
    decreases bucket.len(),
{
    if bucket.len() == 0 {
        Seq::empty()
    } else if bucket.last().is_dummy {
        reals(bucket.drop_last())
    } else {
        reals(bucket.drop_last()).push(bucket.last())
    }
}

/// The blocks of the nodes' buckets that carry data, node by node.
pub open spec fn reals_of(tree: Seq<Seq<BlockView>>, nodes: Seq<int>) -> Seq<BlockView>
    decreases nodes.len(),
{
    if nodes.len() == 0 {
        Seq::empty()
    } else {
        reals_of(tree, nodes.drop_last()) + reals(tree[nodes.last()])
    }
}

/// The position of the first block with an id.
pub open spec fn position(blocks: Seq<BlockView>, id: BlockId) -> Option<int>
    decreases blocks.len(),
{
    if blocks.len() == 0 {
        None
    } else {
        match position(blocks.drop_last(), id) {
            Some(i) => Some(i),
            None => if blocks.last().id == id {
                Some(blocks.len() - 1)
            } else {
                None
            },
        }
    }
}

/// The data of the first block with an id; zeros where there is none.
pub open spec fn data_in(blocks: Seq<BlockView>, id: BlockId, block_size: nat) -> Seq<u8> {
    match position(blocks, id) {
        Some(i) => blocks[i].data,
        None => zeros(block_size),
    }
}

/// The blocks after the first one with an id was given a leaf and data, or was added at the end.
pub open spec fn with_block(
    blocks: Seq<BlockView>,
    id: BlockId,
    leaf: Leaf,
    data: Seq<u8>,
) -> Seq<BlockView> {
    match position(blocks, id) {
        Some(i) => blocks.update(i, BlockView { leaf, data, ..blocks[i] }),
        None => blocks.push(real_block(id, leaf, data)),
    }
}

/// The data of an id in a map; zeros where it has none.
pub open spec fn value_in(contents: Map<BlockId, Seq<u8>>, id: BlockId, block_size: nat) -> Seq<
    u8,
> {
    if contents.contains_key(id) {
        contents[id]
    } else {
        zeros(block_size)
    }
}

/// A bucket that holds the blocks in its first slots and dummies in the others.
pub open spec fn bucket_of(blocks: Seq<BlockView>, z: nat, block_size: nat) -> Seq<BlockView> {
    Seq::new(
        z,
        |s: int|
            if s < blocks.len() {
                blocks[s]
            } else {
                dummy_block(block_size)
            },
    )
}

/// The tree after the path `nodes` was refilled from `stash`.
pub open spec fn refilled_tree(
    tree: Seq<Seq<BlockView>>,
    stash: Seq<BlockView>,
    num_leaves: int,
    nodes: Seq<int>,
    z: nat,
    block_size: nat,
) -> Seq<Seq<BlockView>> {
    written(
        tree,
        nodes,
        Seq::new(
            nodes.len(),
            |k: int| bucket_of(placed(stash, num_leaves, nodes, k, z), z, block_size),
        ),
    )
}

impl OramState {
    /// The nodes from the root to a leaf.
    pub open spec fn path(self, leaf: Leaf) -> Seq<int> {
        path_to(leaf_node(self.num_leaves, leaf as int))
    }

    /// The stash after the blocks on the path to `leaf` were added to it.
    pub open spec fn fetched(self, leaf: Leaf) -> Seq<BlockView> {
        self.stash + reals_of(self.tree, self.path(leaf))
    }

    /// The state after the path to `leaf` was refilled from `stash`.
    pub open spec fn refilled(self, stash: Seq<BlockView>, leaf: Leaf) -> OramState {
        OramState {
            tree: refilled_tree(
                self.tree,
                stash,
                self.num_leaves,
                self.path(leaf),
                self.z,
                self.block_size,
            ),
            stash: kept(stash, self.num_leaves, self.path(leaf), 0, self.z),
            ..self
        }
    }

    /// The stash of an access to `id` before the path is refilled: `new_data` replaces the data
    /// where it is given.
    pub open spec fn worked_on(
        self,
        id: BlockId,
        old_leaf: Leaf,
        new_leaf: Leaf,
        new_data: Option<Seq<u8>>,
    ) -> Seq<BlockView> {
        let blocks = self.fetched(old_leaf);
        with_block(
            blocks,
            id,
            new_leaf,
            match new_data {
                Some(data) => data,
                None => data_in(blocks, id, self.block_size),
            },
        )
    }

    /// The state after an access to `id` that goes to the path of `old_leaf` and assigns the block
    /// to `new_leaf`.
    pub open spec fn accessed(
        self,
        id: BlockId,
        old_leaf: Leaf,
        new_leaf: Leaf,
        new_data: Option<Seq<u8>>,
    ) -> OramState {
        OramState {
            pos_map: self.pos_map.insert(id, new_leaf),
            ..self.refilled(self.worked_on(id, old_leaf, new_leaf, new_data), old_leaf)
        }
    }

    /// Whether a slot exists and holds a block that carries data.
    pub open spec fn occupied(self, n: int, s: int) -> bool {
        &&& 0 <= n < self.tree.len()
        &&& 0 <= s < self.tree[n].len()
        &&& !self.tree[n][s].is_dummy
    }

    /// Whether a block is in the stash, or carries data and is in the tree.
    pub open spec fn holds(self, b: BlockView) -> bool {
        ||| self.stash.contains(b)
        ||| !b.is_dummy && exists|n: int|
            0 <= n < self.tree.len() && (#[trigger] self.tree[n]).contains(b)
    }

    /// Whether the block's leaf is the one on record.
    pub open spec fn assigned(self, b: BlockView) -> bool {
        self.pos_map.contains_key(b.id) && self.pos_map[b.id] == b.leaf
    }

    /// The dimensions of the tree and of its blocks.
    pub open spec fn well_shaped(self) -> bool {
        &&& is_pow2(self.num_leaves)
        &&& self.tree.len() == 2 * self.num_leaves - 1
        &&& forall|n: int| 0 <= n < self.tree.len() ==> (#[trigger] self.tree[n]).len() == self.z
        &&& forall|n: int, s: int|
            0 <= n < self.tree.len() && 0 <= s < self.z ==> (#[trigger] self.tree[n][s]).data.len()
                == self.block_size
        &&& forall|i: int|
            0 <= i < self.stash.len() ==> (#[trigger] self.stash[i]).data.len() == self.block_size
                && !self.stash[i].is_dummy
    }

    /// Every block lies in the stash or on the path to the leaf on record for it.
    pub open spec fn well_placed(self) -> bool {
        &&& forall|i: int|
            0 <= i < self.stash.len() ==> self.assigned(#[trigger] self.stash[i])
        &&& forall|n: int, s: int| #[trigger]
            self.occupied(n, s) ==> self.assigned(self.tree[n][s]) && fits(
                self.num_leaves,
                n,
                self.tree[n][s],
            )
        &&& forall|id: BlockId| #[trigger]
            self.pos_map.contains_key(id) ==> self.pos_map[id] < self.num_leaves
    }

    /// No id occurs in two places.
    pub open spec fn without_doubles(self) -> bool {
        &&& distinct_ids(self.stash)
        &&& forall|n1: int, s1: int, n2: int, s2: int| #[trigger]
            self.occupied(n1, s1) && #[trigger] self.occupied(n2, s2) && self.tree[n1][s1].id
                == self.tree[n2][s2].id ==> n1 == n2 && s1 == s2
        &&& forall|i: int, n: int, s: int|
            0 <= i < self.stash.len() && #[trigger] self.occupied(n, s) ==> (
            #[trigger] self.stash[i]).id != self.tree[n][s].id
    }

    /// Every id with a leaf on record has its block somewhere.
    pub open spec fn complete(self) -> bool {
        forall|id: BlockId| #[trigger]
            self.pos_map.contains_key(id) ==> exists|b: BlockView| #[trigger]
                self.holds(b) && b.id == id
    }

    /// What is true of a store before and after each access.
    #[verifier::opaque]
    pub open spec fn inv(self) -> bool {
        &&& self.well_shaped()
        &&& self.well_placed()
        &&& self.without_doubles()
        &&& self.complete()
    }

    /// The data of each id that was ever accessed.
    pub open spec fn contents(self) -> Map<BlockId, Seq<u8>> {
        Map::new(
            |id: BlockId| self.pos_map.contains_key(id),
            |id: BlockId| (choose|b: BlockView| #[trigger] self.holds(b) && b.id == id).data,
        )
    }

    /// The data of an id; zeros where it was never accessed.
    pub open spec fn value(self, id: BlockId) -> Seq<u8> {
        value_in(self.contents(), id, self.block_size)
    }
}

} // verus!
