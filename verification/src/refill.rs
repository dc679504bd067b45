//! Refilling a path: encrypting dummies, choosing blocks from the stash and putting them into the
//! buckets, and which nonce goes where.

use crate::block::{block_views, dummy_block, BlockView, PlainBlock};
use crate::crypto::{
    encryptable, nonce_at, sealed_slot, slot_block, slot_valid, state_after, CryptoCtx,
};
use crate::generator::generator_state;
use crate::placement::{chosen, kept, placed, rest};
use crate::server::{EncBucket, OramServer};
use vstd::prelude::*;

verus! {

/// Whether every slot of a node's bucket is valid there, and the blocks that they hold.
pub open spec fn bucket_holds(
    key: Seq<u8>,
    block_size: nat,
    node: int,
    bucket: Seq<Seq<u8>>,
    blocks: Seq<BlockView>,
) -> bool {
    &&& bucket.len() == blocks.len()
    &&& forall|s: int|
        0 <= s < bucket.len() ==> slot_valid(key, block_size, node, s, #[trigger] bucket[s])
            && slot_block(key, node, s, bucket[s]) == blocks[s]
}

/// A node's bucket of `z` dummies, encrypted with the nonces that follow the first `from`.
pub open spec fn dummy_slots(
    key: Seq<u8>,
    state: Seq<u8>,
    from: int,
    node: int,
    z: nat,
    block_size: nat,
) -> Seq<Seq<u8>> {
    Seq::new(
        z,
        |s: int| sealed_slot(key, nonce_at(state, from + s), node, s, dummy_block(block_size)),
    )
}

/// A bucket after its first slots were given the blocks, encrypted with the nonces that follow the
/// first `from`.
pub open spec fn with_blocks(
    key: Seq<u8>,
    state: Seq<u8>,
    from: int,
    node: int,
    bucket: Seq<Seq<u8>>,
    blocks: Seq<BlockView>,
) -> Seq<Seq<u8>> {
    Seq::new(
        bucket.len(),
        |s: int|
            if s < blocks.len() {
                sealed_slot(key, nonce_at(state, from + s), node, s, blocks[s])
            } else {
                bucket[s]
            },
    )
}

/// How many nonces a refill has drawn once the buckets of `nodes[k]` and below have their blocks:
/// one for each slot of the path, which gets a dummy first, and one for each block that has left
/// the stash.
pub open spec fn draws_until(
    stash: Seq<BlockView>,
    num_leaves: int,
    nodes: Seq<int>,
    k: int,
    z: nat,
) -> int {
    nodes.len() * z + stash.len() - kept(stash, num_leaves, nodes, k, z).len()
}

/// The bucket of `nodes[k]` after its path was refilled from `stash`.
pub open spec fn refilled_slots(
    key: Seq<u8>,
    state: Seq<u8>,
    stash: Seq<BlockView>,
    num_leaves: int,
    nodes: Seq<int>,
    k: int,
    z: nat,
    block_size: nat,
) -> Seq<Seq<u8>> {
    with_blocks(
        key,
        state,
        draws_until(stash, num_leaves, nodes, k + 1, z),
        nodes[k],
        dummy_slots(key, state, k * z, nodes[k], z, block_size),
        placed(stash, num_leaves, nodes, k, z),
    )
}

/// Drawing nonces one after the other.
pub proof fn lemma_draw(state: Seq<u8>, k: int)
    requires
        k >= 0,
    ensures
        nonce_at(state_after(state, k), 0) == nonce_at(state, k),
        state_after(state_after(state, k), 1) == state_after(state, k + 1),
{
    reveal_with_fuel(state_after, 2);
}

/// Encrypts `z` dummies for a node.
pub(crate) fn dummy_bucket(
    crypto: &mut CryptoCtx,
    dummy: &PlainBlock,
    node_index: usize,
    z: usize,
    state: Ghost<Seq<u8>>,
    from: Ghost<int>,
) -> (bucket: EncBucket)
    requires
        encryptable(old(crypto).block_size as nat),
        dummy@ == dummy_block(old(crypto).block_size as nat),
        from@ >= 0,
        generator_state(old(crypto).rng) == state_after(state@, from@),
    ensures
        bucket@ == dummy_slots(
            old(crypto).key@,
            state@,
            from@,
            node_index as int,
            z as nat,
            old(crypto).block_size as nat,
        ),
        bucket_holds(
            old(crypto).key@,
            old(crypto).block_size as nat,
            node_index as int,
            bucket@,
            Seq::new(z as nat, |s: int| dummy_block(old(crypto).block_size as nat)),
        ),
        generator_state(final(crypto).rng) == state_after(state@, from@ + z),
        final(crypto).key == old(crypto).key,
        final(crypto).block_size == old(crypto).block_size,
{
    let ghost key = crypto.key@;
    let ghost block_size = crypto.block_size as nat;
    let mut slots: Vec<Vec<u8>> = Vec::new();
    let mut i: usize = 0;
    while i < z
        invariant
            i <= z,
            crypto.key == old(crypto).key,
            crypto.block_size == old(crypto).block_size,
            key == crypto.key@,
            block_size == crypto.block_size,
            encryptable(block_size),
            dummy@ == dummy_block(block_size),
            from@ >= 0,
            generator_state(crypto.rng) == state_after(state@, from@ + i),
            slots@.len() == i,
            forall|s: int|
                0 <= s < i ==> (#[trigger] slots@[s])@ == sealed_slot(
                    key,
                    nonce_at(state@, from@ + s),
                    node_index as int,
                    s,
                    dummy@,
                ) && slot_valid(key, block_size, node_index as int, s, slots@[s]@) && slot_block(
                    key,
                    node_index as int,
                    s,
                    slots@[s]@,
                ) == dummy@,
        decreases z - i,
    {
        proof {
            lemma_draw(state@, from@ + i);
        }
        let slot = crypto.encrypt_block_to_slot(dummy, node_index, i);
        slots.push(slot);
        i = i + 1;
    }
    let bucket = EncBucket::new(slots);
    assert(bucket@ =~= dummy_slots(key, state@, from@, node_index as int, z as nat, block_size));
    bucket
}

/// Encrypts the blocks into the first slots of a node's bucket.
pub(crate) fn put_blocks(
    crypto: &mut CryptoCtx,
    bucket: &mut EncBucket,
    blocks: &Vec<PlainBlock>,
    node_index: usize,
    state: Ghost<Seq<u8>>,
    from: Ghost<int>,
    held: Ghost<Seq<BlockView>>,
)
    requires
        encryptable(old(crypto).block_size as nat),
        from@ >= 0,
        generator_state(old(crypto).rng) == state_after(state@, from@),
        blocks@.len() <= old(bucket)@.len(),
        forall|i: int|
            0 <= i < blocks@.len() ==> (#[trigger] blocks@[i]).data@.len() == old(
                crypto,
            ).block_size,
        bucket_holds(
            old(crypto).key@,
            old(crypto).block_size as nat,
            node_index as int,
            old(bucket)@,
            held@,
        ),
    ensures
        final(bucket)@ == with_blocks(
            old(crypto).key@,
            state@,
            from@,
            node_index as int,
            old(bucket)@,
            block_views(blocks@),
        ),
        bucket_holds(
            old(crypto).key@,
            old(crypto).block_size as nat,
            node_index as int,
            final(bucket)@,
            Seq::new(
                held@.len(),
                |s: int|
                    if s < blocks@.len() {
                        blocks@[s]@
                    } else {
                        held@[s]
                    },
            ),
        ),
        generator_state(final(crypto).rng) == state_after(state@, from@ + blocks@.len()),
        final(crypto).key == old(crypto).key,
        final(crypto).block_size == old(crypto).block_size,
{
    let ghost key = crypto.key@;
    let ghost block_size = crypto.block_size as nat;
    let ghost before = bucket@;
    let mut i: usize = 0;
    while i < blocks.len()
        invariant
            i <= blocks@.len() <= before.len(),
            crypto.key == old(crypto).key,
            crypto.block_size == old(crypto).block_size,
            key == crypto.key@,
            block_size == crypto.block_size,
            encryptable(block_size),
            from@ >= 0,
            forall|i: int|
                0 <= i < blocks@.len() ==> (#[trigger] blocks@[i]).data@.len() == block_size,
            bucket_holds(key, block_size, node_index as int, before, held@),
            generator_state(crypto.rng) == state_after(state@, from@ + i),
            bucket@.len() == before.len(),
            forall|s: int|
                i <= s < before.len() ==> (#[trigger] bucket@[s]) == before[s],
            forall|s: int|
                0 <= s < i ==> (#[trigger] bucket@[s]) == sealed_slot(
                    key,
                    nonce_at(state@, from@ + s),
                    node_index as int,
                    s,
                    blocks@[s]@,
                ) && slot_valid(key, block_size, node_index as int, s, bucket@[s]) && slot_block(
                    key,
                    node_index as int,
                    s,
                    bucket@[s],
                ) == blocks@[s]@,
        decreases blocks@.len() - i,
    {
        proof {
            lemma_draw(state@, from@ + i);
        }
        let slot = crypto.encrypt_block_to_slot(&blocks[i], node_index, i);
        let ghost now = bucket@;
        bucket.slots[i] = slot;
        assert(bucket@ =~= now.update(i as int, slot@));
        i = i + 1;
    }
    assert(bucket@ =~= with_blocks(
        key,
        state@,
        from@,
        node_index as int,
        before,
        block_views(blocks@),
    ));
}

/// Takes the first `server.z` blocks that fit into `node` out of the stash.
pub(crate) fn take_fitting(
    server: &OramServer,
    stash: &mut Vec<PlainBlock>,
    node: usize,
) -> (taken: Vec<PlainBlock>)
    requires
        forall|i: int|
            0 <= i < old(stash)@.len() ==> server.has_node_index(
                (#[trigger] old(stash)@[i]).leaf,
            ),
    ensures
        block_views(taken@) == chosen(
            block_views(old(stash)@),
            server.num_leaves as int,
            node as int,
            server.z as nat,
        ),
        block_views(final(stash)@) == rest(
            block_views(old(stash)@),
            server.num_leaves as int,
            node as int,
            server.z as nat,
        ),
        forall|b: PlainBlock| #[trigger] taken@.contains(b) ==> old(stash)@.contains(b),
        forall|b: PlainBlock| #[trigger] final(stash)@.contains(b) ==> old(stash)@.contains(b),
{
    let mut before: Vec<PlainBlock> = Vec::new();
    std::mem::swap(stash, &mut before);
    let ghost all = before@;
    let ghost blocks = block_views(all);
    let ghost num_leaves = server.num_leaves as int;
    let mut taken: Vec<PlainBlock> = Vec::new();
    let ghost mut i: int = 0;
    assert(blocks.take(0) =~= Seq::empty());
    for blk in it: before.into_iter()
        invariant
            i == it.index(),
            it.seq() == all,
            blocks == block_views(all),
            num_leaves == server.num_leaves,
            forall|j: int| 0 <= j < all.len() ==> server.has_node_index((#[trigger] all[j]).leaf),
            block_views(taken@) == chosen(blocks.take(i), num_leaves, node as int, server.z as nat),
            block_views(stash@) == rest(blocks.take(i), num_leaves, node as int, server.z as nat),
            forall|b: PlainBlock| #[trigger] taken@.contains(b) ==> all.contains(b),
            forall|b: PlainBlock| #[trigger] stash@.contains(b) ==> all.contains(b),
    {
        proof {
            assert(blk == all[i]);
            assert(blocks.take(i + 1).drop_last() =~= blocks.take(i));
            assert(blocks.take(i + 1).last() == blk@);
            crate::placement::lemma_push_contains(taken@, blk);
            crate::placement::lemma_push_contains(stash@, blk);
        }
        let ghost taken_before = taken@;
        let ghost stash_before = stash@;
        if taken.len() < server.z && server.is_ancestor(node, blk.leaf) {
            taken.push(blk);
            assert(block_views(taken@) =~= block_views(taken_before).push(blk@));
        } else {
            stash.push(blk);
            assert(block_views(stash@) =~= block_views(stash_before).push(blk@));
        }
        proof {
            i = i + 1;
        }
    }
    assert(blocks.take(blocks.len() as int) =~= blocks);
    taken
}

} // verus!
