//! The client: it keeps the position map, the stash and the key, and reads and writes blocks by
//! fetching and refilling one path of the server's tree per access.

use crate::aead::{opened, sealed};
use crate::block::{block_views, decoded, dummy_block, encoded, BlockId, BlockView, Leaf, PlainBlock};
use crate::bytes::le_bytes;
use crate::crypto::{
    dummy_layout, encryptable, nonce_at, sealed_slot, slot_block, slot_layout, slot_valid, state_after,
    CryptoCtx,
};
use crate::generator::{
    fill_bytes, filled, generator_state, sample_below, sampled, seed_generator, seeded_state,
};
use crate::model::{bucket_of, data_in, position, reals, reals_of, with_block, OramState};
use crate::placement::{choice_splits_stash, kept, lemma_kept_grows, placed};
use crate::preservation::{
    access_finds_value, access_updates_contents, lemma_position, lemma_reals_of_contain,
};
use crate::refill::{
    bucket_holds, draws_until, dummy_bucket, dummy_slots, put_blocks, refilled_slots, take_fitting,
};
use crate::server::{bucket_views, written, written_buckets_come_back, EncBucket, OramServer};
use crate::tree::{as_ints, leaf_ancestors_by_halving, leaf_node, path_shape, path_to};
use std::collections::HashMap;
use vstd::arithmetic::power2::{is_pow2, pow2};
use vstd::prelude::*;

verus! {

broadcast use vstd::std_specs::hash::group_hash_axioms;

/// A store of blocks on a server that learns neither the blocks nor which of them is accessed.
pub struct OramClient {
    pub server: OramServer,
    pub crypto: CryptoCtx,
    /// The leaf that each block is assigned to.
    pub pos_map: HashMap<BlockId, Leaf>,
    /// Blocks that are not in the tree; none of them is a dummy.
    pub stash: Vec<PlainBlock>,
}

/// What an access is for.
#[derive(Clone, Copy)]
pub enum Op {
    Read,
    Write,
}

/// The blocks of the slots of a tree.
pub open spec fn plain_tree(key: Seq<u8>, tree: Seq<Seq<Seq<u8>>>) -> Seq<Seq<BlockView>> {
    Seq::new(
        tree.len(),
        |n: int| Seq::new(tree[n].len(), |s: int| slot_block(key, n, s, tree[n][s])),
    )
}

/// Whether every slot of the tree is valid where it lies.
pub open spec fn slots_valid(key: Seq<u8>, block_size: nat, tree: Seq<Seq<Seq<u8>>>) -> bool {
    forall|n: int, s: int|
        0 <= n < tree.len() && 0 <= s < tree[n].len() ==> slot_valid(
            key,
            block_size,
            n,
            s,
            #[trigger] tree[n][s],
        )
}

/// Whether the bytes are valid as slot `s` of node `n`, and hold a dummy or a block whose leaf has
/// a node number.
pub open spec fn slot_intact(
    key: Seq<u8>,
    block_size: nat,
    num_leaves: int,
    n: int,
    s: int,
    bytes: Seq<u8>,
) -> bool {
    &&& slot_valid(key, block_size, n, s, bytes)
    &&& slot_block(key, n, s, bytes).is_dummy || leaf_node(
        num_leaves,
        slot_block(key, n, s, bytes).leaf as int,
    ) <= usize::MAX
}

/// Whether all slots of the nodes' buckets are intact.
pub open spec fn slots_intact(
    key: Seq<u8>,
    block_size: nat,
    num_leaves: int,
    tree: Seq<Seq<Seq<u8>>>,
    nodes: Seq<int>,
) -> bool {
    forall|k: int, s: int|
        0 <= k < nodes.len() && 0 <= s < tree[nodes[k]].len() ==> slot_intact(
            key,
            block_size,
            num_leaves,
            nodes[k],
            s,
            #[trigger] tree[nodes[k]][s],
        )
}

/// The data that an access puts in place of the old ones: a read ignores what it is given.
pub open spec fn data_to_write(op: Op, new_data: Option<Vec<u8>>) -> Option<Seq<u8>> {
    match (op, new_data) {
        (Op::Write, Some(data)) => Some(data@),
        _ => None,
    }
}

/// The bytes of data, where there are any.
pub open spec fn given(data: Option<Vec<u8>>) -> Option<Seq<u8>> {
    match data {
        Some(data) => Some(data@),
        None => None,
    }
}

/// The leaf that is drawn from a generator in `state`, and the state after. (The sample is below
/// its bound, so the remainder is the sample itself.)
pub open spec fn drawn_leaf(state: Seq<u8>, num_leaves: usize) -> (Leaf, Seq<u8>) {
    let (index, after) = sampled(state, num_leaves, usize::BITS as nat);
    ((index % num_leaves) as u32, after)
}

/// A drawn leaf is one of the tree's.
pub proof fn drawn_leaf_in_range(state: Seq<u8>, num_leaves: usize)
    requires
        num_leaves > 0,
    ensures
        drawn_leaf(state, num_leaves).0 < num_leaves,
{
    let index: usize = sampled(state, num_leaves, usize::BITS as nat).0 % num_leaves;
    assert((index as u32) as usize <= index) by (bit_vector);
    vstd::arithmetic::div_mod::lemma_mod_bound(
        sampled(state, num_leaves, usize::BITS as nat).0 as int,
        num_leaves as int,
    );
}

/// The server's tree after the path `nodes` was refilled from `stash` with nonces drawn from a
/// generator in `state`.
pub open spec fn refilled_server(
    key: Seq<u8>,
    tree: Seq<Seq<Seq<u8>>>,
    state: Seq<u8>,
    stash: Seq<BlockView>,
    num_leaves: int,
    nodes: Seq<int>,
    z: nat,
    block_size: nat,
) -> Seq<Seq<Seq<u8>>> {
    written(
        tree,
        nodes,
        Seq::new(
            nodes.len(),
            |k: int| refilled_slots(key, state, stash, num_leaves, nodes, k, z, block_size),
        ),
    )
}

impl View for OramClient {
    type V = OramState;

    open spec fn view(&self) -> OramState {
        OramState {
            num_leaves: self.server.num_leaves as int,
            z: self.server.z as nat,
            block_size: self.crypto.block_size as nat,
            tree: plain_tree(self.crypto.key@, self.server@),
            pos_map: self.pos_map@,
            stash: block_views(self.stash@),
        }
    }
}

impl OramClient {
    /// What is true of every client between accesses: it can decrypt each slot, and the blocks obey
    /// the store's invariant.
    pub open spec fn wf(&self) -> bool {
        &&& encryptable(self.crypto.block_size as nat)
        &&& slots_valid(self.crypto.key@, self.crypto.block_size as nat, self.server@)
        &&& self@.inv()
    }

    /// Whether the blocks of the stash can be encrypted, and their leaves have node numbers.
    pub open spec fn stash_ready(&self) -> bool {
        forall|i: int|
            0 <= i < self.stash@.len() ==> (#[trigger] self.stash@[i]).data@.len()
                == self.crypto.block_size && self.server.has_node_index(self.stash@[i].leaf)
    }

    /// What a client needs for its accesses, whatever became of the slots on the server.
    pub open spec fn shaped(&self) -> bool {
        &&& encryptable(self.crypto.block_size as nat)
        &&& 1 <= self.server.num_leaves
        &&& self.server.tree@.len() == 2 * self.server.num_leaves - 1
        &&& forall|id: BlockId| #[trigger]
            self.pos_map@.contains_key(id) ==> self.pos_map@[id] < self.server.num_leaves
        &&& self.stash_ready()
    }

    /// Whether all slots on the path to a leaf are intact.
    pub open spec fn path_intact(&self, leaf: Leaf) -> bool {
        slots_intact(
            self.crypto.key@,
            self.crypto.block_size as nat,
            self.server.num_leaves as int,
            self.server@,
            self@.path(leaf),
        )
    }

    /// What an access to `id` needs: the slots that it decrypts are intact. Slots on other paths
    /// do not matter.
    pub open spec fn can_access(&self, id: BlockId) -> bool {
        self.shaped() && self.path_intact(self.leaves_for(id).0)
    }

    /// The data that an access to `id` finds; zeros where it finds no block.
    pub open spec fn answer(&self, id: BlockId) -> Seq<u8> {
        data_in(self@.fetched(self.leaves_for(id).0), id, self.crypto.block_size as nat)
    }

    /// The state of the client's generator.
    pub open spec fn randomness(&self) -> Seq<u8> {
        generator_state(self.crypto.rng)
    }

    /// The leaf whose path an access to `id` fetches, the leaf that it assigns to the block, and
    /// the generator's state after they were drawn.
    pub open spec fn leaves_for(&self, id: BlockId) -> (Leaf, Leaf, Seq<u8>) {
        let n = self.server.num_leaves;
        let (old_leaf, state) = if self.pos_map@.contains_key(id) {
            (self.pos_map@[id], self.randomness())
        } else {
            drawn_leaf(self.randomness(), n)
        };
        let (new_leaf, after) = drawn_leaf(state, n);
        (old_leaf, new_leaf, after)
    }

    /// What a path needs to be refilled from the stash.
    pub open spec fn can_refill(&self, leaf: Leaf) -> bool {
        &&& encryptable(self.crypto.block_size as nat)
        &&& 1 <= self.server.num_leaves
        &&& leaf_node(self.server.num_leaves as int, leaf as int) < self.server.tree@.len()
        &&& self.stash_ready()
    }

    /// Whether every slot on the path to `leaf` is valid and holds its block, once the path was
    /// refilled from `stash`.
    pub open spec fn path_holds(&self, leaf: Leaf, stash: Seq<BlockView>) -> bool {
        forall|k: int|
            0 <= k < self@.path(leaf).len() ==> bucket_holds(
                self.crypto.key@,
                self@.block_size,
                #[trigger] self@.path(leaf)[k],
                self.server@[self@.path(leaf)[k]],
                bucket_of(
                    placed(stash, self@.num_leaves, self@.path(leaf), k, self@.z),
                    self@.z,
                    self@.block_size,
                ),
            )
    }

    /// The server's tree after an access to `id` that writes `data` where they are given.
    pub open spec fn server_after(&self, id: BlockId, data: Option<Seq<u8>>) -> Seq<Seq<Seq<u8>>> {
        let (old_leaf, new_leaf, state) = self.leaves_for(id);
        refilled_server(
            self.crypto.key@,
            self.server@,
            state,
            self@.worked_on(id, old_leaf, new_leaf, data),
            self@.num_leaves,
            self@.path(old_leaf),
            self@.z,
            self@.block_size,
        )
    }

    /// The generator's state after an access to `id` that writes `data` where they are given.
    pub open spec fn randomness_after(&self, id: BlockId, data: Option<Seq<u8>>) -> Seq<u8> {
        let (old_leaf, new_leaf, state) = self.leaves_for(id);
        state_after(
            state,
            draws_until(
                self@.worked_on(id, old_leaf, new_leaf, data),
                self@.num_leaves,
                self@.path(old_leaf),
                0,
                self@.z,
            ),
        )
    }

    /// Refills the path to `leaf` from the stash, from the leaf to the root: every slot is
    /// encrypted anew, with a nonce of its own.
    #[verifier::rlimit(60)]
    pub fn evict_to_path(&mut self, leaf: Leaf)
        requires
            old(self).can_refill(leaf),
        ensures
            final(self)@ == old(self)@.refilled(old(self)@.stash, leaf),
            final(self).server@ == refilled_server(
                old(self).crypto.key@,
                old(self).server@,
                old(self).randomness(),
                old(self)@.stash,
                old(self)@.num_leaves,
                old(self)@.path(leaf),
                old(self)@.z,
                old(self)@.block_size,
            ),
            final(self).server@.len() == old(self).server@.len(),
            final(self).path_holds(leaf, old(self)@.stash),
            final(self).path_intact(leaf),
            final(self).stash_ready(),
            final(self).randomness() == state_after(
                old(self).randomness(),
                draws_until(
                    old(self)@.stash,
                    old(self)@.num_leaves,
                    old(self)@.path(leaf),
                    0,
                    old(self)@.z,
                ),
            ),
            slots_valid(old(self).crypto.key@, old(self)@.block_size, old(self).server@)
                ==> slots_valid(
                old(self).crypto.key@,
                old(self)@.block_size,
                final(self).server@,
            ),
            final(self).crypto.key == old(self).crypto.key,
            final(self).crypto.block_size == old(self).crypto.block_size,
            final(self).pos_map@ == old(self).pos_map@,
            final(self).server.num_leaves == old(self).server.num_leaves,
            final(self).server.z == old(self).server.z,
            generator_state(final(self).crypto.rng) == state_after(
                generator_state(old(self).crypto.rng),
                path_to(old(self).server.num_leaves - 1 + leaf).len() * old(self).server.z + old(
                    self,
                ).stash@.len() - final(self).stash@.len(),
            ),
            forall|n: int|
                0 <= n < old(self).server.tree@.len() && !(exists|k: nat|
                    n + 1 == (old(self).server.num_leaves + leaf) / (#[trigger] pow2(k) as int))
                    ==> #[trigger] final(self).server@[n] == old(self).server@[n],
    {
        let ghost key = self.crypto.key@;
        let ghost block_size = self.crypto.block_size as nat;
        let ghost z = self.server.z as nat;
        let ghost num_leaves = self.server.num_leaves as int;
        let ghost target = leaf_node(num_leaves, leaf as int);
        let ghost path = path_to(target);
        let ghost state = self.randomness();
        let ghost blocks = block_views(self.stash@);
        assert(self.server.tree.len() == self.server.tree@.len());

        let nodes = self.server.path_nodes(leaf);
        let dummy_plain = PlainBlock::dummy(self.crypto.block_size);
        let ghost n = path.len();
        assert(n == nodes@.len());
        proof {
            path_shape(target);
        }

        // First a path of dummies.
        let mut new_path: Vec<EncBucket> = Vec::with_capacity(nodes.len());
        let mut lvl: usize = 0;
        while lvl < nodes.len()
            invariant
                lvl <= nodes@.len(),
                n == nodes@.len(),
                path == as_ints(nodes@),
                self.server == old(self).server,
                self.stash == old(self).stash,
                self.pos_map == old(self).pos_map,
                self.crypto.key == old(self).crypto.key,
                self.crypto.block_size == old(self).crypto.block_size,
                key == self.crypto.key@,
                block_size == self.crypto.block_size,
                z == self.server.z,
                encryptable(block_size),
                dummy_plain@ == dummy_block(block_size),
                self.randomness() == state_after(state, lvl * z),
                new_path@.len() == lvl,
                forall|k: int|
                    0 <= k < lvl ==> (#[trigger] new_path@[k])@ == dummy_slots(
                        key,
                        state,
                        k * z,
                        path[k],
                        z,
                        block_size,
                    ) && bucket_holds(
                        key,
                        block_size,
                        path[k],
                        new_path@[k]@,
                        Seq::new(z, |s: int| dummy_block(block_size)),
                    ),
            decreases nodes@.len() - lvl,
        {
            assert(lvl * z >= 0) by (nonlinear_arith);
            assert((lvl + 1) * z == lvl * z + z) by (nonlinear_arith);
            assert(path[lvl as int] == nodes@[lvl as int]);
            let bucket = dummy_bucket(
                &mut self.crypto,
                &dummy_plain,
                nodes[lvl],
                self.server.z,
                Ghost(state),
                Ghost(lvl * z),
            );
            new_path.push(bucket);
            lvl = lvl + 1;
        }

        // Then, from the leaf to the root, the blocks that may lie in each node.
        let mut lvl_rev: usize = nodes.len();
        while lvl_rev > 0
            invariant
                lvl_rev <= n,
                n == nodes@.len(),
                path == as_ints(nodes@),
                self.server == old(self).server,
                self.pos_map == old(self).pos_map,
                self.crypto.key == old(self).crypto.key,
                self.crypto.block_size == old(self).crypto.block_size,
                key == self.crypto.key@,
                block_size == self.crypto.block_size,
                z == self.server.z,
                num_leaves == self.server.num_leaves,
                encryptable(block_size),
                block_views(self.stash@) == kept(blocks, num_leaves, path, lvl_rev as int, z),
                kept(blocks, num_leaves, path, lvl_rev as int, z).len() <= blocks.len(),
                forall|i: int|
                    0 <= i < self.stash@.len() ==> (#[trigger] self.stash@[i]).data@.len()
                        == block_size && self.server.has_node_index(self.stash@[i].leaf),
                self.randomness() == state_after(
                    state,
                    draws_until(blocks, num_leaves, path, lvl_rev as int, z),
                ),
                new_path@.len() == n,
                forall|k: int|
                    0 <= k < lvl_rev ==> (#[trigger] new_path@[k])@ == dummy_slots(
                        key,
                        state,
                        k * z,
                        path[k],
                        z,
                        block_size,
                    ) && bucket_holds(
                        key,
                        block_size,
                        path[k],
                        new_path@[k]@,
                        Seq::new(z, |s: int| dummy_block(block_size)),
                    ),
                forall|k: int|
                    lvl_rev <= k < n ==> (#[trigger] new_path@[k])@ == refilled_slots(
                        key,
                        state,
                        blocks,
                        num_leaves,
                        path,
                        k,
                        z,
                        block_size,
                    ) && bucket_holds(
                        key,
                        block_size,
                        path[k],
                        new_path@[k]@,
                        bucket_of(placed(blocks, num_leaves, path, k, z), z, block_size),
                    ),
            decreases lvl_rev,
        {
            let ghost above = lvl_rev as int;
            let ghost stash_before = self.stash@;
            lvl_rev = lvl_rev - 1;
            let ghost k = lvl_rev as int;
            assert(path[k] == nodes@[k]);
            let taken = take_fitting(&self.server, &mut self.stash, nodes[lvl_rev]);
            proof {
                choice_splits_stash(block_views(stash_before), num_leaves, path[k], z);
                assert(block_views(taken@) == placed(blocks, num_leaves, path, k, z));
                assert(block_views(taken@).len() == taken@.len());
                assert(n * z >= 0) by (nonlinear_arith);
                assert forall|i: int| 0 <= i < taken@.len() implies (
                #[trigger] taken@[i]).data@.len() == block_size by {
                    assert(taken@.contains(taken@[i]));
                    let j = choose|j: int|
                        0 <= j < stash_before.len() && stash_before[j] == taken@[i];
                    assert(stash_before[j].data@.len() == block_size);
                }
                assert forall|i: int| 0 <= i < self.stash@.len() implies (
                #[trigger] self.stash@[i]).data@.len() == block_size
                    && self.server.has_node_index(self.stash@[i].leaf) by {
                    assert(self.stash@.contains(self.stash@[i]));
                    let j = choose|j: int|
                        0 <= j < stash_before.len() && stash_before[j] == self.stash@[i];
                    assert(stash_before[j].data@.len() == block_size);
                }
            }
            let ghost path_before = new_path@;
            put_blocks(
                &mut self.crypto,
                &mut new_path[lvl_rev],
                &taken,
                nodes[lvl_rev],
                Ghost(state),
                Ghost(draws_until(blocks, num_leaves, path, above, z)),
                Ghost(Seq::new(z, |s: int| dummy_block(block_size))),
            );
            proof {
                assert(new_path@ =~= path_before.update(k, new_path@[k]));
                let held = bucket_of(placed(blocks, num_leaves, path, k, z), z, block_size);
                assert(held =~= Seq::new(
                    z,
                    |s: int|
                        if s < taken@.len() {
                            taken@[s]@
                        } else {
                            Seq::new(z, |s: int| dummy_block(block_size))[s]
                        },
                ));
            }
        }

        // Back to the server.
        let ghost server_before = self.server@;
        let ghost stored = bucket_views(new_path@);
        assert forall|i: int| 0 <= i < nodes@.len() implies #[trigger] nodes@[i]
            < self.server.tree@.len() by {
            assert(path[i] == nodes@[i]);
        }
        self.server.write_path(nodes.as_slice(), new_path);
        proof {
            let expected = Seq::new(
                n,
                |k: int|
                    refilled_slots(key, state, blocks, num_leaves, path, k, z, block_size),
            );
            assert(stored =~= expected);
            let plain = Seq::new(
                n,
                |k: int| bucket_of(placed(blocks, num_leaves, path, k, z), z, block_size),
            );
            written_buckets_come_back(server_before, path, stored);
            let plain_before = plain_tree(key, server_before);
            written_buckets_come_back(plain_before, path, plain);
            let plain_now = plain_tree(key, self.server@);
            assert forall|m: int| 0 <= m < server_before.len() implies #[trigger] plain_now[m]
                == written(plain_before, path, plain)[m] by {
                if path.contains(m) {
                    let k = choose|k: int| 0 <= k < path.len() && path[k] == m;
                    assert(self.server@[path[k]] == stored[k]);
                    assert(written(plain_before, path, plain)[path[k]] == plain[k]);
                    assert(bucket_holds(key, block_size, path[k], stored[k], plain[k]));
                    assert(plain_now[m] =~= plain[k]);
                } else {
                    assert(self.server@[m] == server_before[m]);
                    assert(plain_now[m] =~= plain_before[m]);
                }
            }
            assert(plain_now =~= written(plain_before, path, plain));
            assert(self@.tree == old(self)@.refilled(blocks, leaf).tree);
            assert(self@.path(leaf) == path);
            assert forall|k: int| 0 <= k < path.len() implies bucket_holds(
                key,
                block_size,
                #[trigger] path[k],
                self.server@[path[k]],
                plain[k],
            ) by {
                assert(self.server@[path[k]] == stored[k]);
            }
            assert forall|i: int| 0 <= i < blocks.len() implies leaf_node(
                num_leaves,
                (#[trigger] blocks[i]).leaf as int,
            ) <= usize::MAX by {
                assert(old(self).stash@[i]@ == blocks[i]);
            }
            lemma_refilled_intact(key, block_size, num_leaves, self.server@, path, blocks, z);
            assert forall|m: int|
                0 <= m < server_before.len() && !(exists|k: nat|
                    m + 1 == (num_leaves + leaf) / (#[trigger] pow2(k) as int)) implies #[trigger] self.server@[m]
                == server_before[m] by {
                leaf_ancestors_by_halving(m, num_leaves, leaf as int);
            }
            if slots_valid(key, block_size, server_before) {
                assert forall|m: int, s: int|
                    0 <= m < self.server@.len() && 0 <= s < self.server@[m].len() implies slot_valid(
                    key,
                    block_size,
                    m,
                    s,
                    #[trigger] self.server@[m][s],
                ) by {
                    if path.contains(m) {
                        let k = choose|k: int| 0 <= k < path.len() && path[k] == m;
                        assert(self.server@[path[k]] == stored[k]);
                        assert(bucket_holds(key, block_size, path[k], stored[k], plain[k]));
                    } else {
                        assert(self.server@[m] == server_before[m]);
                        assert(slot_valid(key, block_size, m, s, server_before[m][s]));
                    }
                }
            }
        }
    }

    /// A new store whose keys and randomness all come from `master_seed`; every slot of the tree
    /// holds a dummy.
    #[verifier::rlimit(50)]
    pub fn new(num_leaves: usize, z: usize, block_size: usize, master_seed: u64) -> (client: Self)
        requires
            is_pow2(num_leaves as int),
            2 * num_leaves <= usize::MAX,
            encryptable(block_size as nat),
        ensures
            client.wf(),
            client.server.num_leaves == num_leaves,
            client.server.z == z,
            client.crypto.block_size == block_size,
            client.crypto.key@ == filled(
                seeded_state(master_seed ^ 0xA5A5_A5A5_A5A5_A5A5),
                32,
            ).0,
            client.pos_map@ == Map::<BlockId, Leaf>::empty(),
            client.stash@ == Seq::<PlainBlock>::empty(),
            client@.contents() == Map::<BlockId, Seq<u8>>::empty(),
            forall|id: BlockId| #[trigger]
                client@.value(id) == Seq::new(block_size as nat, |i: int| 0u8),
            client.server.tree@.len() == 2 * num_leaves - 1,
            forall|n: int|
                0 <= n < 2 * num_leaves - 1 ==> (#[trigger] client.server.tree@[n]).slots@.len()
                    == z,
            forall|n: int, s: int|
                0 <= n < 2 * num_leaves - 1 && 0 <= s < z ==> ({
                    let slot = (#[trigger] client.server.tree@[n].slots@[s])@;
                    let nonce = nonce_at(
                        seeded_state(master_seed ^ 0x5A5A_5A5A_5A5A_5A5A),
                        n * z + s,
                    );
                    &&& slot.len() == 24 + 16 + block_size + 16
                    &&& slot.subrange(0, 24) == nonce
                    &&& forall|i: int|
                        24 <= i < slot.len() ==> #[trigger] slot[i] == sealed(
                            client.crypto.key@,
                            nonce,
                            le_bytes(n as nat, 8) + le_bytes(s as nat, 8),
                            Seq::new(
                                (16 + block_size) as nat,
                                |j: int|
                                    if j == 12 {
                                        1u8
                                    } else {
                                        0u8
                                    },
                            ),
                        )[i - 24]
                }),
            client.server@ == Seq::new(
                (2 * num_leaves - 1) as nat,
                |n: int|
                    dummy_slots(
                        client.crypto.key@,
                        seeded_state(master_seed ^ 0x5A5A_5A5A_5A5A_5A5A),
                        n * z,
                        n,
                        z as nat,
                        block_size as nat,
                    ),
            ),
            client@.tree == Seq::new(
                (2 * num_leaves - 1) as nat,
                |n: int| Seq::new(z as nat, |s: int| dummy_block(block_size as nat)),
            ),
            client.randomness() == state_after(
                seeded_state(master_seed ^ 0x5A5A_5A5A_5A5A_5A5A),
                (2 * num_leaves - 1) * z,
            ),
    {
        let mut k_rng = seed_generator(master_seed ^ 0xA5A5_A5A5_A5A5_A5A5);
        let mut key_bytes = [0u8; 32];
        fill_bytes(&mut k_rng, &mut key_bytes);

        let mut crypto = CryptoCtx::new(
            key_bytes,
            master_seed ^ 0x5A5A_5A5A_5A5A_5A5A,
            block_size,
        );
        let ghost key = crypto.key@;
        let ghost state = seeded_state(master_seed ^ 0x5A5A_5A5A_5A5A_5A5A);
        let ghost dummies = Seq::new(z as nat, |s: int| dummy_block(block_size as nat));
        proof {
            reveal(is_pow2);
        }

        let num_nodes = OramServer::num_nodes(num_leaves);
        let dummy_plain = PlainBlock::dummy(block_size);
        let mut tree: Vec<EncBucket> = Vec::new();
        let mut node_index: usize = 0;
        while node_index < num_nodes
            invariant
                node_index <= num_nodes,
                encryptable(block_size as nat),
                crypto.block_size == block_size,
                crypto.key@ == key,
                dummy_plain@ == dummy_block(block_size as nat),
                dummies == Seq::new(z as nat, |s: int| dummy_block(block_size as nat)),
                generator_state(crypto.rng) == state_after(state, node_index * z),
                tree@.len() == node_index,
                forall|n: int|
                    0 <= n < node_index ==> (#[trigger] tree@[n])@ == dummy_slots(
                        key,
                        state,
                        n * z,
                        n,
                        z as nat,
                        block_size as nat,
                    ) && bucket_holds(key, block_size as nat, n, tree@[n]@, dummies),
            decreases num_nodes - node_index,
        {
            assert(node_index * z >= 0) by (nonlinear_arith);
            assert((node_index + 1) * z == node_index * z + z) by (nonlinear_arith);
            let bucket = dummy_bucket(
                &mut crypto,
                &dummy_plain,
                node_index,
                z,
                Ghost(state),
                Ghost(node_index * z),
            );
            tree.push(bucket);
            node_index = node_index + 1;
        }

        let server = OramServer::new(num_leaves, z, tree);
        let client = Self { server, crypto, pos_map: HashMap::new(), stash: Vec::new() };
        proof {
            assert(client.server@ =~= Seq::new(
                (2 * num_leaves - 1) as nat,
                |n: int| dummy_slots(key, state, n * z, n, z as nat, block_size as nat),
            ));
            let plain = Seq::new((2 * num_leaves - 1) as nat, |n: int| dummies);
            assert forall|n: int| 0 <= n < plain.len() implies #[trigger] client@.tree[n]
                == plain[n] by {
                assert(client.server@[n] == tree@[n]@);
                assert(client@.tree[n] =~= plain[n]);
            }
            assert(client@.tree =~= plain);
            assert forall|n: int, s: int|
                0 <= n < client.server@.len() && 0 <= s < client.server@[n].len() implies slot_valid(
                key,
                block_size as nat,
                n,
                s,
                #[trigger] client.server@[n][s],
            ) by {
                assert(client.server@[n] == tree@[n]@);
                assert(bucket_holds(key, block_size as nat, n, tree@[n]@, dummies));
            }
            assert(forall|n: int, s: int| !#[trigger] client@.occupied(n, s));
            assert(client@.stash.len() == 0);
            reveal(OramState::inv);
            assert(client@.inv());
            assert(client@.contents() =~= Map::<BlockId, Seq<u8>>::empty());
            dummy_layout(block_size as nat);
            assert forall|n: int, s: int| 0 <= n < 2 * num_leaves - 1 && 0 <= s < z implies (
            #[trigger] client.server.tree@[n].slots@[s])@ == sealed_slot(
                key,
                nonce_at(state, n * z + s),
                n,
                s,
                dummy_block(block_size as nat),
            ) by {
                assert(client.server@[n] == client.server.tree@[n]@);
                assert(client.server@[n][s] == client.server.tree@[n].slots@[s]@);
            }
            assert forall|n: int| 0 <= n < 2 * num_leaves - 1 implies (
            #[trigger] client.server.tree@[n]).slots@.len() == z by {
                assert(client.server@[n] == client.server.tree@[n]@);
                assert(client.server@[n].len() == z);
            }
            assert forall|n: int, s: int|
                #![trigger client.server.tree@[n].slots@[s]]
                0 <= n < 2 * num_leaves - 1 && 0 <= s < z implies client.server.tree@[n].slots@[s]@.len()
                == 24 + 16 + block_size + 16 && client.server.tree@[n].slots@[s]@.subrange(0, 24)
                == nonce_at(state, n * z + s) by {
                slot_layout(key, nonce_at(state, n * z + s), n, s, dummy_block(block_size as nat));
            }
            assert forall|n: int, s: int, i: int|
                #![trigger client.server.tree@[n].slots@[s]@[i]]
                0 <= n < 2 * num_leaves - 1 && 0 <= s < z && 24 <= i
                    < client.server.tree@[n].slots@[s]@.len() implies client.server.tree@[n].slots@[s]@[i]
                == sealed(
                key,
                nonce_at(state, n * z + s),
                le_bytes(n as nat, 8) + le_bytes(s as nat, 8),
                encoded(dummy_block(block_size as nat)),
            )[i - 24] by {
                slot_layout(key, nonce_at(state, n * z + s), n, s, dummy_block(block_size as nat));
            }
        }
        client
    }

    /// The number of leaves of the tree.
    pub fn num_leaves(&self) -> (n: usize)
        ensures
            n == self.server.num_leaves,
    {
        self.server.num_leaves
    }

    /// Draws a leaf.
    pub fn random_leaf(&mut self) -> (leaf: Leaf)
        requires
            old(self).server.num_leaves > 0,
        ensures
            leaf == drawn_leaf(old(self).randomness(), old(self).server.num_leaves).0,
            leaf < old(self).server.num_leaves,
            leaf == sampled(
                generator_state(old(self).crypto.rng),
                old(self).server.num_leaves,
                usize::BITS as nat,
            ).0 as u32,
            old(self).server.num_leaves <= 0x1_0000_0000 ==> leaf as int == sampled(
                generator_state(old(self).crypto.rng),
                old(self).server.num_leaves,
                usize::BITS as nat,
            ).0 as int,
            generator_state(final(self).crypto.rng) == sampled(
                generator_state(old(self).crypto.rng),
                old(self).server.num_leaves,
                usize::BITS as nat,
            ).1,
            final(self).randomness() == drawn_leaf(
                old(self).randomness(),
                old(self).server.num_leaves,
            ).1,
            final(self).crypto.key == old(self).crypto.key,
            final(self).crypto.block_size == old(self).crypto.block_size,
            final(self).server == old(self).server,
            final(self).pos_map == old(self).pos_map,
            final(self).stash == old(self).stash,
    {
        let n = self.num_leaves();
        let index: usize = sample_below(&mut self.crypto.rng, n);
        proof {
            drawn_leaf_in_range(old(self).randomness(), n);
            vstd::arithmetic::div_mod::lemma_small_mod(index as nat, n as nat);
        }
        #[verifier::truncate]
        (index as Leaf)
    }

    /// Decrypts the path to `leaf` and adds its blocks to the stash; dummies are dropped.
    fn fetch_path(&mut self, leaf: Leaf)
        requires
            encryptable(old(self).crypto.block_size as nat),
            old(self).path_intact(leaf),
            1 <= old(self).server.num_leaves,
            leaf_node(old(self).server.num_leaves as int, leaf as int) < old(
                self,
            ).server.tree@.len(),
        ensures
            block_views(final(self).stash@) == old(self)@.fetched(leaf),
            final(self).crypto == old(self).crypto,
            final(self).server == old(self).server,
            final(self).pos_map == old(self).pos_map,
    {
        let ghost key = self.crypto.key@;
        let ghost block_size = self.crypto.block_size as nat;
        let ghost num_leaves = self.server.num_leaves as int;
        let ghost server = self.server@;
        let ghost tree = plain_tree(key, server);
        let ghost before = block_views(self.stash@);
        let ghost path = self@.path(leaf);
        let (nodes, enc_path) = self.server.read_path(leaf);
        proof {
            path_shape(leaf_node(self.server.num_leaves as int, leaf as int));
            assert(path.take(0) =~= Seq::empty());
            assert(before + reals_of(tree, path.take(0)) =~= before);
        }
        let mut lvl: usize = 0;
        while lvl < enc_path.len()
            invariant
                lvl <= enc_path@.len() == nodes@.len(),
                path == as_ints(nodes@),
                encryptable(block_size),
                slots_intact(key, block_size, num_leaves, server, path),
                tree == plain_tree(key, server),
                key == self.crypto.key@,
                block_size == self.crypto.block_size,
                forall|i: int| 0 <= i < path.len() ==> 0 <= #[trigger] path[i] < server.len(),
                forall|i: int|
                    0 <= i < nodes@.len() ==> #[trigger] enc_path@[i]@ == server[nodes@[i] as int],
                block_views(self.stash@) == before + reals_of(tree, path.take(lvl as int)),
                self.crypto == old(self).crypto,
                self.server == old(self).server,
                self.pos_map == old(self).pos_map,
            decreases enc_path@.len() - lvl,
        {
            let node_index: usize = nodes[lvl];
            let slots = &enc_path[lvl].slots;
            let ghost so_far = before + reals_of(tree, path.take(lvl as int));
            let ghost bucket = tree[node_index as int];
            proof {
                assert(path[lvl as int] == node_index);
                assert(enc_path@[lvl as int]@ == server[node_index as int]);
                assert(bucket.take(0) =~= Seq::empty());
                assert(so_far + reals(bucket.take(0)) =~= so_far);
            }
            let mut slot_idx: usize = 0;
            while slot_idx < slots.len()
                invariant
                    slot_idx <= slots@.len() == bucket.len(),
                    encryptable(block_size),
                    slots_intact(key, block_size, num_leaves, server, path),
                    0 <= lvl < path.len(),
                    path[lvl as int] == node_index,
                    key == self.crypto.key@,
                    block_size == self.crypto.block_size,
                    0 <= node_index < server.len(),
                    tree == plain_tree(key, server),
                    bucket == tree[node_index as int],
                    slots@.map_values(|s: Vec<u8>| s@) == server[node_index as int],
                    block_views(self.stash@) == so_far + reals(bucket.take(slot_idx as int)),
                    self.crypto == old(self).crypto,
                    self.server == old(self).server,
                    self.pos_map == old(self).pos_map,
                decreases slots@.len() - slot_idx,
            {
                proof {
                    assert(slots@.map_values(|s: Vec<u8>| s@)[slot_idx as int]
                        == slots@[slot_idx as int]@);
                    assert(slot_intact(
                        key,
                        block_size,
                        num_leaves,
                        path[lvl as int],
                        slot_idx as int,
                        server[path[lvl as int]][slot_idx as int],
                    ));
                    assert(bucket.take(slot_idx + 1).drop_last() =~= bucket.take(slot_idx as int));
                }
                let blk = self.crypto.decrypt_slot_to_block(
                    slots[slot_idx].as_slice(),
                    node_index,
                    slot_idx,
                );
                assert(blk@ == bucket[slot_idx as int]);
                if !blk.is_dummy {
                    let ghost stash = self.stash@;
                    self.stash.push(blk);
                    assert(block_views(self.stash@) =~= block_views(stash).push(blk@));
                    assert(block_views(self.stash@) =~= so_far + reals(bucket.take(slot_idx + 1)));
                }
                slot_idx = slot_idx + 1;
            }
            proof {
                assert(bucket.take(bucket.len() as int) =~= bucket);
                assert(path.take(lvl + 1).drop_last() =~= path.take(lvl as int));
                assert(so_far + reals(bucket) =~= before + reals_of(tree, path.take(lvl + 1)));
            }
            lvl = lvl + 1;
        }
        assert(path.take(path.len() as int) =~= path);
    }

    /// The position of the first block of the stash with an id.
    fn find_in_stash(&self, id: BlockId) -> (found: Option<usize>)
        ensures
            match found {
                Some(i) => position(block_views(self.stash@), id) == Some(i as int),
                None => position(block_views(self.stash@), id) is None,
            },
            found matches Some(i) ==> i < self.stash@.len(),
    {
        let ghost blocks = block_views(self.stash@);
        let mut i: usize = 0;
        assert(blocks.take(0) =~= Seq::empty());
        while i < self.stash.len()
            invariant
                i <= self.stash@.len(),
                blocks == block_views(self.stash@),
                position(blocks.take(i as int), id) is None,
            decreases self.stash@.len() - i,
        {
            assert(blocks.take(i + 1).drop_last() =~= blocks.take(i as int));
            if self.stash[i].id == id {
                proof {
                    lemma_position_of_prefix(blocks, id, i + 1);
                }
                return Some(i);
            }
            i = i + 1;
        }
        assert(blocks.take(blocks.len() as int) =~= blocks);
        None
    }

    /// The leaf whose path an access to `id` fetches (a drawn one where the block is new) and the
    /// drawn leaf that the block moves to.
    fn draw_leaves(&mut self, id: BlockId) -> (r: (Leaf, Leaf))
        requires
            old(self).shaped(),
        ensures
            r.0 == old(self).leaves_for(id).0,
            r.1 == old(self).leaves_for(id).1,
            r.0 < old(self).server.num_leaves,
            r.1 < old(self).server.num_leaves,
            r.1 == sampled(
                if old(self).pos_map@.contains_key(id) {
                    generator_state(old(self).crypto.rng)
                } else {
                    sampled(
                        generator_state(old(self).crypto.rng),
                        old(self).server.num_leaves,
                        usize::BITS as nat,
                    ).1
                },
                old(self).server.num_leaves,
                usize::BITS as nat,
            ).0 as u32,
            final(self).randomness() == old(self).leaves_for(id).2,
            final(self).crypto.key == old(self).crypto.key,
            final(self).crypto.block_size == old(self).crypto.block_size,
            final(self).server == old(self).server,
            final(self).pos_map == old(self).pos_map,
            final(self).stash == old(self).stash,
    {
        let old_leaf: Leaf = match self.pos_map.get(&id) {
            Some(l) => *l,
            None => self.random_leaf(),
        };
        let new_leaf: Leaf = self.random_leaf();
        (old_leaf, new_leaf)
    }

    /// Gives the block with an id a leaf, and data where they are given, in the stash; it is added
    /// where it is missing. Returns the data from before.
    fn update_stash(&mut self, id: BlockId, leaf: Leaf, new_data: Option<Vec<u8>>) -> (old_value:
        Vec<u8>)
        requires
            old(self).crypto.block_size <= isize::MAX,
        ensures
            old_value@ == data_in(
                block_views(old(self).stash@),
                id,
                old(self).crypto.block_size as nat,
            ),
            block_views(final(self).stash@) == with_block(
                block_views(old(self).stash@),
                id,
                leaf,
                match new_data {
                    Some(data) => data@,
                    None => old_value@,
                },
            ),
            final(self).crypto == old(self).crypto,
            final(self).server == old(self).server,
            final(self).pos_map == old(self).pos_map,
    {
        let ghost blocks = block_views(self.stash@);
        let found = self.find_in_stash(id);
        let old_value: Vec<u8> = match found {
            Some(i) => self.stash[i].data.clone(),
            None => vec![0u8; self.crypto.block_size],
        };
        assert(old_value@ =~= data_in(blocks, id, self.crypto.block_size as nat));
        let data: Vec<u8> = match new_data {
            Some(nd) => nd,
            None => old_value.clone(),
        };
        assert(new_data is None ==> data@ =~= old_value@);
        match found {
            Some(i) => {
                self.stash[i].data = data;
                self.stash[i].leaf = leaf;
            },
            None => {
                self.stash.push(PlainBlock::new_real(id, leaf, data));
            },
        }
        assert(block_views(self.stash@) =~= with_block(blocks, id, leaf, data@));
        old_value
    }

    /// Whether all slots on the path to a leaf are intact.
    #[verifier::rlimit(40)]
    pub fn check_path(&self, leaf: Leaf) -> (intact: bool)
        requires
            encryptable(self.crypto.block_size as nat),
            1 <= self.server.num_leaves,
            leaf_node(self.server.num_leaves as int, leaf as int) < self.server.tree@.len(),
        ensures
            intact == self.path_intact(leaf),
            intact <==> forall|n: int, s: int|
                0 <= n < self.server.tree@.len() && (exists|k: nat|
                    n + 1 == (self.server.num_leaves + leaf) / (#[trigger] pow2(k) as int)) && 0
                    <= s < self.server.tree@[n].slots@.len() ==> ({
                    let slot = (#[trigger] self.server.tree@[n].slots@[s])@;
                    let pt = opened(
                        self.crypto.key@,
                        slot.subrange(0, 24),
                        le_bytes(n as nat, 8) + le_bytes(s as nat, 8),
                        slot.subrange(24, slot.len() as int),
                    );
                    &&& slot.len() == 24 + 16 + self.crypto.block_size + 16
                    &&& pt is Some
                    &&& pt->0.len() == 16 + self.crypto.block_size
                    &&& decoded(pt->0).is_dummy || self.server.num_leaves - 1 + decoded(pt->0).leaf
                        <= usize::MAX
                }),
    {
        let ghost key = self.crypto.key@;
        let ghost block_size = self.crypto.block_size as nat;
        let ghost num_leaves = self.server.num_leaves as int;
        let ghost tree = self.server@;
        let ghost path = self@.path(leaf);
        assert(self.server.tree.len() == self.server.tree@.len());
        let nodes = self.server.path_nodes(leaf);
        proof {
            path_shape(leaf_node(self.server.num_leaves as int, leaf as int));
        }
        let mut lvl: usize = 0;
        while lvl < nodes.len()
            invariant
                lvl <= nodes@.len(),
                encryptable(block_size),
                1 <= num_leaves,
                key == self.crypto.key@,
                block_size == self.crypto.block_size,
                num_leaves == self.server.num_leaves,
                leaf_node(num_leaves, leaf as int) < self.server.tree@.len(),
                tree == self.server@,
                path == self@.path(leaf),
                path == as_ints(nodes@),
                forall|i: int|
                    0 <= i < path.len() ==> 0 <= #[trigger] path[i] < self.server.tree@.len(),
                forall|k: int, s: int|
                    0 <= k < lvl && 0 <= s < tree[path[k]].len() ==> slot_intact(
                        key,
                        block_size,
                        num_leaves,
                        path[k],
                        s,
                        #[trigger] tree[path[k]][s],
                    ),
            decreases nodes@.len() - lvl,
        {
            let node = nodes[lvl];
            assert(path[lvl as int] == node);
            let slots = &self.server.tree[node].slots;
            let mut i: usize = 0;
            while i < slots.len()
                invariant
                    i <= slots@.len(),
                    encryptable(block_size),
                    1 <= num_leaves,
                    key == self.crypto.key@,
                    block_size == self.crypto.block_size,
                    num_leaves == self.server.num_leaves,
                    leaf_node(num_leaves, leaf as int) < self.server.tree@.len(),
                    tree == self.server@,
                    path == self@.path(leaf),
                    0 <= lvl < path.len(),
                    path[lvl as int] == node,
                    tree[node as int] == slots@.map_values(|s: Vec<u8>| s@),
                    forall|s: int|
                        0 <= s < i ==> slot_intact(
                            key,
                            block_size,
                            num_leaves,
                            node as int,
                            s,
                            #[trigger] tree[node as int][s],
                        ),
                decreases slots@.len() - i,
            {
                let ghost bytes = tree[path[lvl as int]][i as int];
                assert(bytes == slots@[i as int]@);
                let intact = match self.crypto.try_decrypt_slot(slots[i].as_slice(), node, i) {
                    Ok(b) => b.is_dummy || usize::MAX - self.server.leaf_base() >= b.leaf as usize,
                    Err(_) => false,
                };
                assert(intact == slot_intact(
                    key,
                    block_size,
                    num_leaves,
                    node as int,
                    i as int,
                    bytes,
                ));
                if !intact {
                    proof {
                        intact_path_opens(*self, leaf);
                    }
                    return false;
                }
                i = i + 1;
            }
            lvl = lvl + 1;
        }
        proof {
            intact_path_opens(*self, leaf);
        }
        true
    }

    /// Serves an access once its leaves are known: moves the block to the new leaf, fetches the old
    /// one's path into the stash, and refills the path.
    #[verifier::rlimit(40)]
    fn access_path(
        &mut self,
        id: BlockId,
        old_leaf: Leaf,
        new_leaf: Leaf,
        new_data: Option<Vec<u8>>,
    ) -> (old_value: Vec<u8>)
        requires
            old(self).shaped(),
            old(self).path_intact(old_leaf),
            old_leaf < old(self).server.num_leaves,
            new_leaf < old(self).server.num_leaves,
            new_data matches Some(data) ==> data@.len() == old(self).crypto.block_size,
        ensures
            old_value@ == data_in(
                old(self)@.fetched(old_leaf),
                id,
                old(self).crypto.block_size as nat,
            ),
            final(self)@ == old(self)@.accessed(id, old_leaf, new_leaf, given(new_data)),
            final(self).server@ == refilled_server(
                old(self).crypto.key@,
                old(self).server@,
                old(self).randomness(),
                old(self)@.worked_on(id, old_leaf, new_leaf, given(new_data)),
                old(self)@.num_leaves,
                old(self)@.path(old_leaf),
                old(self)@.z,
                old(self)@.block_size,
            ),
            final(self).randomness() == state_after(
                old(self).randomness(),
                draws_until(
                    old(self)@.worked_on(id, old_leaf, new_leaf, given(new_data)),
                    old(self)@.num_leaves,
                    old(self)@.path(old_leaf),
                    0,
                    old(self)@.z,
                ),
            ),
            final(self).path_holds(
                old_leaf,
                old(self)@.worked_on(id, old_leaf, new_leaf, given(new_data)),
            ),
            final(self).path_intact(old_leaf),
            slots_valid(old(self).crypto.key@, old(self)@.block_size, old(self).server@)
                ==> slots_valid(
                old(self).crypto.key@,
                old(self)@.block_size,
                final(self).server@,
            ),
            final(self).shaped(),
            final(self).crypto.key == old(self).crypto.key,
    {
        let ghost before = self@;
        let ghost data = given(new_data);
        proof {
            lemma_worked_on_ready(*self, id, old_leaf, new_leaf, data);
            assert(self.server.tree.len() == before.tree.len());
            path_shape(leaf_node(before.num_leaves, old_leaf as int));
        }
        self.pos_map.insert(id, new_leaf);
        self.fetch_path(old_leaf);
        assert(block_views(self.stash@) == before.fetched(old_leaf));

        let old_value = self.update_stash(id, new_leaf, new_data);
        let ghost worked = before.worked_on(id, old_leaf, new_leaf, data);
        assert(block_views(self.stash@) == worked);
        assert forall|i: int| 0 <= i < self.stash@.len() implies (
        #[trigger] self.stash@[i]).data@.len() == self.crypto.block_size
            && self.server.has_node_index(self.stash@[i].leaf) by {
            assert(block_views(self.stash@)[i] == self.stash@[i]@);
            assert(worked[i].data.len() == before.block_size);
        }

        self.evict_to_path(old_leaf);
        assert(self@ == before.accessed(id, old_leaf, new_leaf, data));
        assert(self@.pos_map == before.pos_map.insert(id, new_leaf));
        assert(self@.pos_map == self.pos_map@);
        assert(self.server@.len() == self.server.tree@.len());
        assert(self.server.num_leaves == self@.num_leaves);
        old_value
    }

    /// Whether this is what an access to `id`, which writes `data` where they are given, makes of
    /// `before`: the blocks, the leaves on record and the server's bytes, and how far the generator
    /// is. All slots of the path that was fetched are intact now and hold their blocks.
    pub open spec fn follows(
        &self,
        before: OramClient,
        id: BlockId,
        data: Option<Seq<u8>>,
    ) -> bool {
        let (old_leaf, new_leaf, _) = before.leaves_for(id);
        &&& self@ == before@.accessed(id, old_leaf, new_leaf, data)
        &&& self.server@ == before.server_after(id, data)
        &&& self.randomness() == before.randomness_after(id, data)
        &&& self.crypto.key == before.crypto.key
        &&& self.path_holds(old_leaf, before@.worked_on(id, old_leaf, new_leaf, data))
        &&& self.path_intact(old_leaf)
        &&& self.shaped()
    }

    /// Reads or writes the block with an id and returns the data that it had before. A block that
    /// was never accessed reads as zeros.
    #[verifier::rlimit(40)]
    pub fn access(&mut self, op: Op, id: BlockId, new_data: Option<Vec<u8>>) -> (old_value: Vec<u8>)
        requires
            old(self).wf() || old(self).can_access(id),
            op is Write ==> new_data is Some && new_data->0@.len() == old(self).crypto.block_size,
        ensures
            old(self).wf() ==> final(self).wf(),
            old(self).wf() ==> old_value@ == old(self)@.value(id),
            old(self).wf() ==> final(self)@.contents() == old(self)@.contents().insert(
                id,
                match data_to_write(op, new_data) {
                    Some(data) => data,
                    None => old(self)@.value(id),
                },
            ),
            old_value@ == old(self).answer(id),
            old_value@.len() == old(self).crypto.block_size,
            final(self).follows(*old(self), id, data_to_write(op, new_data)),
            final(self).pos_map@ == old(self).pos_map@.insert(
                id,
                sampled(
                    if old(self).pos_map@.contains_key(id) {
                        generator_state(old(self).crypto.rng)
                    } else {
                        sampled(
                            generator_state(old(self).crypto.rng),
                            old(self).server.num_leaves,
                            usize::BITS as nat,
                        ).1
                    },
                    old(self).server.num_leaves,
                    usize::BITS as nat,
                ).0 as u32,
            ),
            old(self).wf() ==> forall|other: BlockId|
                other != id ==> #[trigger] final(self)@.value(other) == old(self)@.value(other),
            old(self).wf() ==> final(self)@.value(id) == (match op {
                Op::Read => old_value@,
                Op::Write => new_data->0@,
            }),
            old(self).leaves_for(id).0 < old(self).server.num_leaves,
            old(self).leaves_for(id).1 < old(self).server.num_leaves,
    {
        proof {
            if self.wf() {
                wf_can_access(*self, id);
            }
            lemma_access(*self, id, data_to_write(op, new_data));
        }
        let (old_leaf, new_leaf) = self.draw_leaves(id);
        assert(self@ == old(self)@);
        self.access_path(
            id,
            old_leaf,
            new_leaf,
            match op {
                Op::Read => None,
                Op::Write => new_data,
            },
        )
    }

    /// An access that first looks whether the slots that it would decrypt are intact. Where they
    /// are not it does nothing but draw the leaves, and returns `None`.
    #[verifier::rlimit(40)]
    pub fn try_access(&mut self, op: Op, id: BlockId, new_data: Option<Vec<u8>>) -> (r: Option<
        Vec<u8>,
    >)
        requires
            old(self).wf() || old(self).shaped(),
            op is Write ==> new_data is Some && new_data->0@.len() == old(self).crypto.block_size,
        ensures
            r is Some <==> old(self).path_intact(old(self).leaves_for(id).0),
            old(self).wf() ==> r is Some && r->0@ == old(self)@.value(id) && final(self).wf(),
            old(self).wf() ==> final(self)@.contents() == old(self)@.contents().insert(
                id,
                match data_to_write(op, new_data) {
                    Some(data) => data,
                    None => old(self)@.value(id),
                },
            ),
            r matches Some(old_value) ==> old_value@ == old(self).answer(id) && old_value@.len()
                == old(self).crypto.block_size && final(self).follows(
                *old(self),
                id,
                data_to_write(op, new_data),
            ),
            r is Some ==> final(self).pos_map@ == old(self).pos_map@.insert(
                id,
                sampled(
                    if old(self).pos_map@.contains_key(id) {
                        generator_state(old(self).crypto.rng)
                    } else {
                        sampled(
                            generator_state(old(self).crypto.rng),
                            old(self).server.num_leaves,
                            usize::BITS as nat,
                        ).1
                    },
                    old(self).server.num_leaves,
                    usize::BITS as nat,
                ).0 as u32,
            ),
            old(self).wf() ==> forall|other: BlockId|
                other != id ==> #[trigger] final(self)@.value(other) == old(self)@.value(other),
            old(self).wf() ==> final(self)@.value(id) == (match op {
                Op::Read => r->0@,
                Op::Write => new_data->0@,
            }),
            r is None ==> final(self).server == old(self).server && final(self).pos_map == old(
                self,
            ).pos_map && final(self).stash == old(self).stash && final(self).crypto.key == old(
                self,
            ).crypto.key && final(self).crypto.block_size == old(self).crypto.block_size
                && final(self).randomness() == old(self).leaves_for(id).2,
            old(self).leaves_for(id).0 < old(self).server.num_leaves,
            old(self).leaves_for(id).1 < old(self).server.num_leaves,
    {
        proof {
            if self.wf() {
                wf_can_access(*self, id);
            }
        }
        let (old_leaf, new_leaf) = self.draw_leaves(id);
        assert(self@ == old(self)@);
        if !self.check_path(old_leaf) {
            return None;
        }
        proof {
            lemma_access(*old(self), id, data_to_write(op, new_data));
        }
        let old_value = self.access_path(
            id,
            old_leaf,
            new_leaf,
            match op {
                Op::Read => None,
                Op::Write => new_data,
            },
        );
        Some(old_value)
    }

    /// The data of the block with an id; zeros where it was never written.
    pub fn read(&mut self, id: BlockId) -> (data: Vec<u8>)
        requires
            old(self).wf() || old(self).can_access(id),
        ensures
            old(self).wf() ==> final(self).wf(),
            old(self).wf() ==> data@ == old(self)@.value(id),
            old(self).wf() ==> final(self)@.contents() == old(self)@.contents().insert(
                id,
                old(self)@.value(id),
            ),
            data@ == old(self).answer(id),
            data@.len() == old(self).crypto.block_size,
            final(self).follows(*old(self), id, None),
            final(self).pos_map@ == old(self).pos_map@.insert(
                id,
                sampled(
                    if old(self).pos_map@.contains_key(id) {
                        generator_state(old(self).crypto.rng)
                    } else {
                        sampled(
                            generator_state(old(self).crypto.rng),
                            old(self).server.num_leaves,
                            usize::BITS as nat,
                        ).1
                    },
                    old(self).server.num_leaves,
                    usize::BITS as nat,
                ).0 as u32,
            ),
            old(self).wf() ==> forall|any: BlockId| #[trigger]
                final(self)@.value(any) == old(self)@.value(any),
            old(self).leaves_for(id).0 < old(self).server.num_leaves,
            old(self).leaves_for(id).1 < old(self).server.num_leaves,
    {
        self.access(Op::Read, id, None)
    }

    /// Replaces the data of the block with an id and returns the data that it had before.
    pub fn write(&mut self, id: BlockId, data: Vec<u8>) -> (old_data: Vec<u8>)
        requires
            old(self).wf() || old(self).can_access(id),
            data@.len() == old(self).crypto.block_size,
        ensures
            old(self).wf() ==> final(self).wf(),
            old(self).wf() ==> old_data@ == old(self)@.value(id),
            old(self).wf() ==> final(self)@.contents() == old(self)@.contents().insert(id, data@),
            old_data@ == old(self).answer(id),
            old_data@.len() == old(self).crypto.block_size,
            final(self).follows(*old(self), id, Some(data@)),
            final(self).pos_map@ == old(self).pos_map@.insert(
                id,
                sampled(
                    if old(self).pos_map@.contains_key(id) {
                        generator_state(old(self).crypto.rng)
                    } else {
                        sampled(
                            generator_state(old(self).crypto.rng),
                            old(self).server.num_leaves,
                            usize::BITS as nat,
                        ).1
                    },
                    old(self).server.num_leaves,
                    usize::BITS as nat,
                ).0 as u32,
            ),
            old(self).wf() ==> forall|other: BlockId|
                other != id ==> #[trigger] final(self)@.value(other) == old(self)@.value(other),
            old(self).wf() ==> final(self)@.value(id) == data@,
            old(self).leaves_for(id).0 < old(self).server.num_leaves,
            old(self).leaves_for(id).1 < old(self).server.num_leaves,
    {
        self.access(Op::Write, id, Some(data))
    }
}

/// A path is intact if and only if the cipher opens each slot of each of its nodes, and the block
/// found there has the right size and is a dummy or has a leaf with a node number.
#[verifier::rlimit(40)]
pub proof fn intact_path_opens(client: OramClient, leaf: Leaf)
    requires
        1 <= client.server.num_leaves,
        leaf_node(client.server.num_leaves as int, leaf as int) < client.server.tree@.len(),
    ensures
        client.path_intact(leaf) <==> forall|n: int, s: int|
            0 <= n < client.server.tree@.len() && (exists|k: nat|
                n + 1 == (client.server.num_leaves + leaf) / (#[trigger] pow2(k) as int)) && 0 <= s
                < client.server.tree@[n].slots@.len() ==> ({
                let slot = (#[trigger] client.server.tree@[n].slots@[s])@;
                let pt = opened(
                    client.crypto.key@,
                    slot.subrange(0, 24),
                    le_bytes(n as nat, 8) + le_bytes(s as nat, 8),
                    slot.subrange(24, slot.len() as int),
                );
                &&& slot.len() == 24 + 16 + client.crypto.block_size + 16
                &&& pt is Some
                &&& pt->0.len() == 16 + client.crypto.block_size
                &&& decoded(pt->0).is_dummy || client.server.num_leaves - 1 + decoded(pt->0).leaf
                    <= usize::MAX
            }),
{
    let key = client.crypto.key@;
    let block_size = client.crypto.block_size as nat;
    let num = client.server.num_leaves as int;
    let tree = client.server@;
    let path = client@.path(leaf);
    path_shape(leaf_node(num, leaf as int));
    assert forall|n: int, s: int|
        0 <= n < tree.len() && 0 <= s < client.server.tree@[n].slots@.len() implies (
    #[trigger] client.server.tree@[n].slots@[s])@ == tree[n][s] && tree[n].len()
        == client.server.tree@[n].slots@.len() by {
        assert(tree[n] == client.server.tree@[n]@);
    }
    assert forall|n: int| 0 <= n < tree.len() implies (path.contains(n) <==> exists|k: nat|
        n + 1 == (num + leaf) / (#[trigger] pow2(k) as int)) by {
        leaf_ancestors_by_halving(n, num, leaf as int);
    }
    if client.path_intact(leaf) {
        assert forall|n: int, s: int|
            0 <= n < tree.len() && path.contains(n) && 0 <= s
                < client.server.tree@[n].slots@.len() implies slot_intact(
            key,
            block_size,
            num,
            n,
            s,
            (#[trigger] client.server.tree@[n].slots@[s])@,
        ) by {
            let k = choose|k: int| 0 <= k < path.len() && path[k] == n;
            assert(slot_intact(key, block_size, num, path[k], s, tree[path[k]][s]));
        }
    } else {
        let (k, s) = choose|k: int, s: int|
            0 <= k < path.len() && 0 <= s < tree[path[k]].len() && !slot_intact(
                key,
                block_size,
                num,
                path[k],
                s,
                #[trigger] tree[path[k]][s],
            );
        assert(tree[path[k]] == client.server.tree@[path[k]]@);
        assert(path.contains(path[k]));
        assert(client.server.tree@[path[k]].slots@[s]@ == tree[path[k]][s]);
    }
}

/// The slots of a path that was refilled are intact.
proof fn lemma_refilled_intact(
    key: Seq<u8>,
    block_size: nat,
    num_leaves: int,
    tree: Seq<Seq<Seq<u8>>>,
    nodes: Seq<int>,
    stash: Seq<BlockView>,
    z: nat,
)
    requires
        forall|k: int|
            0 <= k < nodes.len() ==> bucket_holds(
                key,
                block_size,
                #[trigger] nodes[k],
                tree[nodes[k]],
                bucket_of(placed(stash, num_leaves, nodes, k, z), z, block_size),
            ),
        forall|i: int|
            0 <= i < stash.len() ==> leaf_node(num_leaves, (#[trigger] stash[i]).leaf as int)
                <= usize::MAX,
    ensures
        slots_intact(key, block_size, num_leaves, tree, nodes),
{
    assert forall|k: int, s: int|
        0 <= k < nodes.len() && 0 <= s < tree[nodes[k]].len() implies slot_intact(
        key,
        block_size,
        num_leaves,
        nodes[k],
        s,
        #[trigger] tree[nodes[k]][s],
    ) by {
        let here = placed(stash, num_leaves, nodes, k, z);
        if s < here.len() {
            let left = kept(stash, num_leaves, nodes, k + 1, z);
            choice_splits_stash(left, num_leaves, nodes[k], z);
            lemma_kept_grows(stash, num_leaves, nodes, k + 1, nodes.len() as int, z);
            assert(here.contains(here[s]));
            assert(left.contains(here[s]));
            let i = choose|i: int| 0 <= i < stash.len() && stash[i] == here[s];
            assert(leaf_node(num_leaves, stash[i].leaf as int) <= usize::MAX);
        }
    }
}

/// Between accesses a client is fit for an access to any block.
pub proof fn wf_can_access(client: OramClient, id: BlockId)
    requires
        client.wf(),
    ensures
        client.can_access(id),
{
    reveal(OramState::inv);
    reveal(is_pow2);
    let st = client@;
    let n = client.server.num_leaves;
    assert(client.server.tree.len() == st.tree.len());
    assert(st.pos_map == client.pos_map@);
    assert forall|i: int| 0 <= i < client.stash@.len() implies (
    #[trigger] client.stash@[i]).data@.len() == client.crypto.block_size
        && client.server.has_node_index(client.stash@[i].leaf) by {
        assert(st.stash[i] == client.stash@[i]@);
        assert(st.assigned(st.stash[i]));
    }
    assert(client.shaped());
    let leaf = client.leaves_for(id).0;
    drawn_leaf_in_range(client.randomness(), n);
    let path = st.path(leaf);
    path_shape(leaf_node(st.num_leaves, leaf as int));
    assert forall|k: int, s: int|
        0 <= k < path.len() && 0 <= s < client.server@[path[k]].len() implies slot_intact(
        client.crypto.key@,
        client.crypto.block_size as nat,
        st.num_leaves,
        path[k],
        s,
        #[trigger] client.server@[path[k]][s],
    ) by {
        let m = path[k];
        assert(st.tree[m][s] == slot_block(client.crypto.key@, m, s, client.server@[m][s]));
        if !st.tree[m][s].is_dummy {
            assert(st.occupied(m, s));
        }
    }
}

/// What an access finds has the size of a block; between accesses it is the block's value, and the
/// invariant stays.
proof fn lemma_access(client: OramClient, id: BlockId, data: Option<Seq<u8>>)
    requires
        client.can_access(id),
        data matches Some(d) ==> d.len() == client.crypto.block_size,
    ensures
        client.answer(id).len() == client.crypto.block_size,
        client.wf() ==> ({
            let (old_leaf, new_leaf, _) = client.leaves_for(id);
            let after = client@.accessed(id, old_leaf, new_leaf, data);
            &&& client.answer(id) == client@.value(id)
            &&& after.inv()
            &&& after.contents() == client@.contents().insert(
                id,
                match data {
                    Some(d) => d,
                    None => client@.value(id),
                },
            )
        }),
{
    let (old_leaf, new_leaf, _) = client.leaves_for(id);
    let n = client.server.num_leaves;
    drawn_leaf_in_range(client.randomness(), n);
    drawn_leaf_in_range(drawn_leaf(client.randomness(), n).1, n);
    lemma_fetched_ready(client, old_leaf);
    lemma_data_in(client@.fetched(old_leaf), id, client@.block_size);
    if client.wf() {
        access_finds_value(client@, id, old_leaf);
        access_updates_contents(client@, id, old_leaf, new_leaf, data);
    }
}

/// The blocks of the stash and of an intact path can be encrypted, and their leaves have node
/// numbers.
proof fn lemma_fetched_ready(client: OramClient, leaf: Leaf)
    requires
        client.shaped(),
        client.path_intact(leaf),
        leaf < client.server.num_leaves,
    ensures
        forall|i: int|
            0 <= i < client@.fetched(leaf).len() ==> (#[trigger] client@.fetched(
                leaf,
            )[i]).data.len() == client.crypto.block_size && client.server.has_node_index(
                client@.fetched(leaf)[i].leaf,
            ),
{
    let st = client@;
    let path = st.path(leaf);
    let on = reals_of(st.tree, path);
    path_shape(leaf_node(st.num_leaves, leaf as int));
    lemma_reals_of_contain(st.tree, path);
    assert forall|i: int| 0 <= i < st.fetched(leaf).len() implies (#[trigger] st.fetched(
        leaf,
    )[i]).data.len() == client.crypto.block_size && client.server.has_node_index(
        st.fetched(leaf)[i].leaf,
    ) by {
        if i < st.stash.len() {
            assert(st.stash[i] == client.stash@[i]@);
        } else {
            let b = on[i - st.stash.len()];
            assert(on.contains(b));
            let k = choose|k: int| 0 <= k < path.len() && st.tree[#[trigger] path[k]].contains(b);
            let s = choose|s: int| 0 <= s < st.tree[path[k]].len() && st.tree[path[k]][s] == b;
            let bytes = client.server@[path[k]][s];
            assert(slot_intact(
                client.crypto.key@,
                client.crypto.block_size as nat,
                st.num_leaves,
                path[k],
                s,
                bytes,
            ));
        }
    }
}

/// What holds of the stash of an access before the path is refilled.
pub proof fn lemma_worked_on_ready(
    client: OramClient,
    id: BlockId,
    old_leaf: Leaf,
    new_leaf: Leaf,
    new_data: Option<Seq<u8>>,
)
    requires
        client.shaped(),
        client.path_intact(old_leaf),
        old_leaf < client.server.num_leaves,
        new_leaf < client.server.num_leaves,
        new_data matches Some(data) ==> data.len() == client.crypto.block_size,
    ensures
        forall|i: int|
            0 <= i < client@.worked_on(id, old_leaf, new_leaf, new_data).len() ==> (
            #[trigger] client@.worked_on(id, old_leaf, new_leaf, new_data)[i]).data.len()
                == client.crypto.block_size && client.server.has_node_index(
                client@.worked_on(id, old_leaf, new_leaf, new_data)[i].leaf,
            ),
{
    let blocks = client@.fetched(old_leaf);
    let stash = client@.worked_on(id, old_leaf, new_leaf, new_data);
    assert(client.server.tree.len() == client.server.tree@.len());
    lemma_fetched_ready(client, old_leaf);
    lemma_position(blocks, id);
    lemma_data_in(blocks, id, client@.block_size);
    assert forall|i: int| 0 <= i < stash.len() implies (#[trigger] stash[i]).data.len()
        == client.crypto.block_size && client.server.has_node_index(stash[i].leaf) by {
        if i < blocks.len() {
            assert(blocks[i].data.len() == client.crypto.block_size);
        }
    }
}

/// Where all blocks have the same size, so have the data that are found, or the zeros.
proof fn lemma_data_in(blocks: Seq<BlockView>, id: BlockId, block_size: nat)
    requires
        forall|i: int|
            0 <= i < blocks.len() ==> (#[trigger] blocks[i]).data.len() == block_size,
    ensures
        data_in(blocks, id, block_size).len() == block_size,
{
    lemma_position(blocks, id);
}

/// A block found in a prefix is found at the same place in the whole.
proof fn lemma_position_of_prefix(blocks: Seq<BlockView>, id: BlockId, m: int)
    requires
        0 <= m <= blocks.len(),
        position(blocks.take(m), id) is Some,
    ensures
        position(blocks, id) == position(blocks.take(m), id),
    decreases blocks.len() - m,
{
    if m == blocks.len() {
        assert(blocks.take(m) =~= blocks);
    } else {
        assert(blocks.take(m + 1).drop_last() =~= blocks.take(m));
        lemma_position_of_prefix(blocks, id, m + 1);
    }
}

} // verus!
