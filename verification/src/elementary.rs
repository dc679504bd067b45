//! What the operations of the store do, in elementary terms: over the fields of the client, the
//! bytes on the server, what the cipher and the generator give, and plain arithmetic.

use crate::aead::{opened, sealed};
use crate::block::{decoded, encoded, zeros, BlockId, BlockView, Leaf};
use crate::bytes::le_bytes;
use crate::client::{
    data_to_write, drawn_leaf_in_range, refilled_server, wf_can_access, OramClient, Op,
};
use crate::crypto::{
    encryptable, nonce_at, slot_layout, slot_valid, state_after, valid_slot_opens,
};
use crate::generator::{generator_state, sampled};
use crate::laws::{
    blocks_lie_as_deep_as_there_is_room, draw_of_slot, slots_are_sealed_with_their_draw,
    stash_keeps_what_has_no_room,
};
use crate::model::{bucket_of, data_in, position, reals, reals_of, OramState};
use crate::placement::{
    choice_splits_stash, fits_on_the_way_to_the_leaf, kept, lemma_kept_grows, placed,
};
use crate::preservation::contents_are_held_data;
use crate::refill::{bucket_holds, refilled_slots};
use crate::server::{written_buckets_come_back, OramServer};
use crate::tree::{leaf_ancestors_by_halving, leaf_node, path_shape, path_to};
use vstd::arithmetic::power2::{is_pow2, pow2};
use vstd::prelude::*;

verus! {

/// The bytes that a server holds are those of its buckets' slots.
pub proof fn server_holds_slots(server: OramServer)
    ensures
        server@.len() == server.tree@.len(),
        forall|n: int|
            0 <= n < server.tree@.len() ==> (#[trigger] server@[n]).len()
                == server.tree@[n].slots@.len(),
        forall|n: int, s: int|
            0 <= n < server.tree@.len() && 0 <= s < server.tree@[n].slots@.len()
                ==> #[trigger] server@[n][s] == server.tree@[n].slots@[s]@,
{
}

/// The state of a client: its dimensions, the leaves on record, the stash, and for each slot of the
/// tree the block whose plaintext the cipher finds there.
pub proof fn state_is_what_is_held(client: OramClient)
    ensures
        client@.num_leaves == client.server.num_leaves,
        client@.z == client.server.z,
        client@.block_size == client.crypto.block_size,
        client@.pos_map == client.pos_map@,
        client@.stash.len() == client.stash@.len(),
        forall|i: int|
            0 <= i < client.stash@.len() ==> (#[trigger] client@.stash[i]).id == client.stash@[i].id
                && client@.stash[i].leaf == client.stash@[i].leaf && client@.stash[i].is_dummy
                == client.stash@[i].is_dummy && client@.stash[i].data == client.stash@[i].data@,
        client@.tree.len() == client.server.tree@.len(),
        forall|n: int|
            0 <= n < client.server.tree@.len() ==> (#[trigger] client@.tree[n]).len()
                == client.server.tree@[n].slots@.len(),
        forall|n: int, s: int|
            0 <= n < client.server.tree@.len() && 0 <= s < client.server.tree@[n].slots@.len()
                ==> #[trigger] client@.tree[n][s] == decoded(
                opened(
                    client.crypto.key@,
                    client.server.tree@[n].slots@[s]@.subrange(0, 24),
                    le_bytes(n as nat, 8) + le_bytes(s as nat, 8),
                    client.server.tree@[n].slots@[s]@.subrange(
                        24,
                        client.server.tree@[n].slots@[s]@.len() as int,
                    ),
                )->0,
            ),
        client.randomness() == generator_state(client.crypto.rng),
{
}

/// Between accesses the value of a block is its data, wherever it lies, and zeros where it has no
/// leaf on record.
pub proof fn value_is_data_of_the_block(client: OramClient, b: BlockView)
    requires
        client.wf(),
    ensures
        client@.stash.contains(b) ==> client@.value(b.id) == b.data,
        (exists|n: int, s: int|
            0 <= n < client@.tree.len() && 0 <= s < client@.tree[n].len() && (
            #[trigger] client@.tree[n][s]) == b) && !b.is_dummy ==> client@.value(b.id) == b.data,
        !client.pos_map@.contains_key(b.id) ==> client@.value(b.id) == Seq::new(
            client.crypto.block_size as nat,
            |i: int| 0u8,
        ),
        client@.contents().contains_key(b.id) <==> client.pos_map@.contains_key(b.id),
        client@.contents().contains_key(b.id) ==> client@.contents()[b.id] == client@.value(b.id),
{
    reveal(OramState::inv);
    let st = client@;
    if st.stash.contains(b) {
        let i = choose|i: int| 0 <= i < st.stash.len() && st.stash[i] == b;
        assert(st.assigned(st.stash[i]));
        assert(st.holds(b));
        contents_are_held_data(st, b);
    }
    if !b.is_dummy && exists|n: int, s: int|
        0 <= n < st.tree.len() && 0 <= s < st.tree[n].len() && (#[trigger] st.tree[n][s]) == b {
        let (n, s) = choose|n: int, s: int|
            0 <= n < st.tree.len() && 0 <= s < st.tree[n].len() && (#[trigger] st.tree[n][s]) == b;
        assert(st.occupied(n, s));
        assert(st.tree[n].contains(b));
        assert(st.holds(b));
        contents_are_held_data(st, b);
    }
}

/// What is true of a store between accesses: the tree is complete and all its buckets have `z`
/// slots, each of which the cipher opens; the stash holds no dummies; each block is assigned to the
/// leaf on record for it and lies in the stash or on the path to that leaf; no id occurs twice; and
/// every id with a leaf on record has its block.
#[verifier::rlimit(50)]
pub proof fn store_between_accesses(client: OramClient)
    requires
        client.wf(),
    ensures
        ({
            let st = client@;
            let num = client.server.num_leaves;
            let in_tree = |n: int, s: int|
                0 <= n < st.tree.len() && 0 <= s < st.tree[n].len() && !st.tree[n][s].is_dummy;
            &&& is_pow2(num as int)
            &&& client.server.tree@.len() == 2 * num - 1
            &&& 16 + client.crypto.block_size <= 274_877_906_816
            &&& forall|n: int|
                0 <= n < client.server.tree@.len() ==> (
                #[trigger] client.server.tree@[n]).slots@.len() == client.server.z
            &&& forall|n: int, s: int|
                0 <= n < client.server.tree@.len() && 0 <= s < client.server.z ==> ({
                    let slot = #[trigger] client.server@[n][s];
                    let pt = opened(
                        client.crypto.key@,
                        slot.subrange(0, 24),
                        le_bytes(n as nat, 8) + le_bytes(s as nat, 8),
                        slot.subrange(24, slot.len() as int),
                    );
                    &&& slot.len() == 24 + 16 + client.crypto.block_size + 16
                    &&& pt is Some
                    &&& pt->0.len() == 16 + client.crypto.block_size
                })
            &&& forall|id: BlockId| #[trigger]
                client.pos_map@.contains_key(id) ==> client.pos_map@[id] < num
            &&& forall|i: int|
                0 <= i < st.stash.len() ==> !(#[trigger] st.stash[i]).is_dummy
                    && st.stash[i].data.len() == client.crypto.block_size
                    && client.pos_map@.contains_key(st.stash[i].id)
                    && client.pos_map@[st.stash[i].id] == st.stash[i].leaf
            &&& forall|n: int, s: int| #[trigger]
                in_tree(n, s) ==> client.pos_map@.contains_key(st.tree[n][s].id)
                    && client.pos_map@[st.tree[n][s].id] == st.tree[n][s].leaf && exists|k: nat|
                    n + 1 == (num + st.tree[n][s].leaf) / (#[trigger] pow2(k) as int)
            &&& forall|i: int, j: int|
                0 <= i < j < st.stash.len() ==> (#[trigger] st.stash[i]).id != (
                #[trigger] st.stash[j]).id
            &&& forall|i: int, n: int, s: int|
                0 <= i < st.stash.len() && #[trigger] in_tree(n, s) ==> (#[trigger] st.stash[i]).id
                    != st.tree[n][s].id
            &&& forall|n1: int, s1: int, n2: int, s2: int| #[trigger]
                in_tree(n1, s1) && #[trigger] in_tree(n2, s2) && st.tree[n1][s1].id
                    == st.tree[n2][s2].id ==> n1 == n2 && s1 == s2
            &&& forall|id: BlockId| #[trigger]
                client.pos_map@.contains_key(id) ==> (exists|i: int|
                    0 <= i < st.stash.len() && (#[trigger] st.stash[i]).id == id) || (exists|
                    n: int,
                    s: int,
                | #[trigger] in_tree(n, s) && st.tree[n][s].id == id)
        }),
{
    reveal(OramState::inv);
    let st = client@;
    let num = client.server.num_leaves as int;
    let in_tree = |n: int, s: int|
        0 <= n < st.tree.len() && 0 <= s < st.tree[n].len() && !st.tree[n][s].is_dummy;
    state_is_what_is_held(client);
    server_holds_slots(client.server);
    assert(forall|n: int, s: int| #[trigger] in_tree(n, s) <==> st.occupied(n, s));
    assert(num >= 1) by {
        reveal(is_pow2);
    }
    assert forall|n: int| 0 <= n < client.server.tree@.len() implies (
    #[trigger] client.server.tree@[n]).slots@.len() == client.server.z by {
        assert(st.tree[n].len() == st.z);
    }
    assert forall|n: int, s: int|
        #![trigger client.server@[n][s]]
        0 <= n < client.server.tree@.len() && 0 <= s < client.server.z implies slot_valid(
        client.crypto.key@,
        client.crypto.block_size as nat,
        n,
        s,
        client.server@[n][s],
    ) by {
        assert(st.tree[n].len() == st.z);
    }
    assert forall|i: int| 0 <= i < st.stash.len() implies st.assigned(#[trigger] st.stash[i]) by {}
    assert forall|n: int, s: int| #[trigger] in_tree(n, s) implies exists|k: nat|
        n + 1 == (num + st.tree[n][s].leaf) / (#[trigger] pow2(k) as int) by {
        assert(st.occupied(n, s));
        fits_on_the_way_to_the_leaf(num, n, st.tree[n][s]);
    }
    assert forall|id: BlockId| #[trigger] client.pos_map@.contains_key(id) implies (exists|i: int|
        0 <= i < st.stash.len() && (#[trigger] st.stash[i]).id == id) || (exists|n: int, s: int|
     #[trigger] in_tree(n, s) && st.tree[n][s].id == id) by {
        assert(st.pos_map.contains_key(id));
        let b = choose|b: BlockView| #[trigger] st.holds(b) && b.id == id;
        if st.stash.contains(b) {
            let i = choose|i: int| 0 <= i < st.stash.len() && st.stash[i] == b;
            assert(st.stash[i].id == id);
        } else {
            let n = choose|n: int| 0 <= n < st.tree.len() && (#[trigger] st.tree[n]).contains(b);
            let s = choose|s: int| 0 <= s < st.tree[n].len() && st.tree[n][s] == b;
            assert(in_tree(n, s));
        }
    }
}

/// What a client needs for an access and for a refill.
pub proof fn needs_of_access_and_refill(client: OramClient, id: BlockId, leaf: Leaf)
    ensures
        ({
            let num = client.server.num_leaves;
            let ready = forall|i: int|
                0 <= i < client.stash@.len() ==> (#[trigger] client.stash@[i]).data@.len()
                    == client.crypto.block_size && 1 <= num && num - 1 + client.stash@[i].leaf
                    <= usize::MAX;
            &&& client.can_refill(leaf) <==> encryptable(client.crypto.block_size as nat) && 1 <= num
                && num - 1 + leaf < client.server.tree@.len() && ready
            &&& client.shaped() <==> encryptable(client.crypto.block_size as nat) && 1 <= num
                && client.server.tree@.len() == 2 * num - 1 && ready && (forall|any: BlockId|
             #[trigger]
                client.pos_map@.contains_key(any) ==> client.pos_map@[any] < num)
            &&& client.can_access(id) <==> client.shaped() && client.path_intact(
                client.leaves_for(id).0,
            )
        }),
{
}

/// A refilled path holds what was placed there: the cipher opens each slot of each bucket, in the
/// first ones the blocks and in the others dummies.
pub proof fn path_holds_what_was_placed(
    client: OramClient,
    leaf: Leaf,
    stash: Seq<BlockView>,
    k: int,
    s: int,
)
    requires
        client.path_holds(leaf, stash),
        0 <= k < path_to(client.server.num_leaves - 1 + leaf).len(),
        0 <= s < client.server.z,
    ensures
        ({
            let path = path_to(client.server.num_leaves - 1 + leaf);
            let z = client.server.z as nat;
            let here = placed(stash, client.server.num_leaves as int, path, k, z);
            let slot = client.server@[path[k]][s];
            let pt = opened(
                client.crypto.key@,
                slot.subrange(0, 24),
                le_bytes(path[k] as nat, 8) + le_bytes(s as nat, 8),
                slot.subrange(24, slot.len() as int),
            );
            &&& client.server@[path[k]].len() == z
            &&& slot.len() == 24 + 16 + client.crypto.block_size + 16
            &&& pt is Some
            &&& decoded(pt->0) == (if s < here.len() {
                here[s]
            } else {
                BlockView {
                    id: 0,
                    leaf: 0,
                    is_dummy: true,
                    data: Seq::new(client.crypto.block_size as nat, |i: int| 0u8),
                }
            })
        }),
{
    let path = path_to(client.server.num_leaves - 1 + leaf);
    let z = client.server.z as nat;
    let block_size = client.crypto.block_size as nat;
    assert(client@.path(leaf) == path);
    let held = bucket_of(
        placed(stash, client.server.num_leaves as int, path, k, z),
        z,
        block_size,
    );
    assert(zeros(block_size) =~= Seq::new(block_size, |i: int| 0u8));
    assert(bucket_holds(client.crypto.key@, block_size, path[k], client.server@[path[k]], held));
    valid_slot_opens(client.crypto.key@, block_size, path[k], s, client.server@[path[k]][s]);
}

/// Only a write writes, and it writes what it is given.
pub proof fn only_writes_write(op: Op, new_data: Option<Vec<u8>>)
    ensures
        op is Read ==> data_to_write(op, new_data) is None,
        op is Write && new_data is Some ==> data_to_write(op, new_data) == Some(new_data->0@),
{
}

/// The leaves of an access are the generator's next samples: the block's new leaf is the last one
/// taken, and the leaf whose path is fetched is the one on record or, for a new block, the first
/// sample. (A sample is below the number of leaves.)
pub proof fn leaves_are_the_next_samples(client: OramClient, id: BlockId)
    ensures
        ({
            let n = client.server.num_leaves;
            let state = generator_state(client.crypto.rng);
            let first = sampled(state, n, usize::BITS as nat);
            let second = sampled(first.1, n, usize::BITS as nat);
            &&& client.pos_map@.contains_key(id) ==> client.leaves_for(id) == (
                client.pos_map@[id],
                (first.0 % n) as u32,
                first.1,
            )
            &&& !client.pos_map@.contains_key(id) ==> client.leaves_for(id) == (
                (first.0 % n) as u32,
                (second.0 % n) as u32,
                second.1,
            )
        }),
{
}

proof fn lemma_reals_are_filtered(bucket: Seq<BlockView>)
    ensures
        reals(bucket) == bucket.filter(|b: BlockView| !b.is_dummy),
    decreases bucket.len(),
{
    reveal(Seq::filter);
    if bucket.len() > 0 {
        lemma_reals_are_filtered(bucket.drop_last());
    }
}

proof fn lemma_reals_of_are_filtered(tree: Seq<Seq<BlockView>>, nodes: Seq<int>)
    ensures
        reals_of(tree, nodes) == nodes.map_values(
            |n: int| tree[n].filter(|b: BlockView| !b.is_dummy),
        ).flatten(),
    decreases nodes.len(),
{
    let f = |n: int| tree[n].filter(|b: BlockView| !b.is_dummy);
    let all = nodes.map_values(f);
    all.lemma_flatten_and_flatten_alt_are_equivalent();
    if nodes.len() > 0 {
        let init = nodes.drop_last();
        lemma_reals_of_are_filtered(tree, init);
        lemma_reals_are_filtered(tree[nodes.last()]);
        init.map_values(f).lemma_flatten_and_flatten_alt_are_equivalent();
        assert(all.drop_last() =~= init.map_values(f));
    }
}

/// What is fetched is the stash and then, from the root to the leaf, the blocks of each bucket on
/// the path that are no dummies.
pub proof fn fetching_drops_dummies(st: OramState, leaf: Leaf)
    ensures
        st.fetched(leaf) == st.stash + path_to(st.num_leaves - 1 + leaf).map_values(
            |n: int| st.tree[n].filter(|b: BlockView| !b.is_dummy),
        ).flatten(),
{
    lemma_reals_of_are_filtered(st.tree, path_to(st.num_leaves - 1 + leaf));
}

proof fn lemma_position_is_first(blocks: Seq<BlockView>, id: BlockId)
    ensures
        match position(blocks, id) {
            Some(i) => 0 <= i < blocks.len() && blocks[i].id == id && forall|j: int|
                0 <= j < i ==> (#[trigger] blocks[j]).id != id,
            None => forall|j: int| 0 <= j < blocks.len() ==> (#[trigger] blocks[j]).id != id,
        },
    decreases blocks.len(),
{
    if blocks.len() > 0 {
        let init = blocks.drop_last();
        lemma_position_is_first(init, id);
        assert(forall|j: int| 0 <= j < init.len() ==> init[j] == #[trigger] blocks[j]);
    }
}

/// An access works on the first block with its id among what it fetched: it answers with its data
/// and gives it the new leaf and, if it writes, the new data. Where there is none it answers with
/// zeros and adds a block at the end. All other blocks stay as they are.
pub proof fn access_works_on_the_first_block(
    st: OramState,
    id: BlockId,
    old_leaf: Leaf,
    new_leaf: Leaf,
    data: Option<Seq<u8>>,
)
    ensures
        forall|i: int|
            0 <= i < st.fetched(old_leaf).len() && (#[trigger] st.fetched(old_leaf)[i]).id == id && (
            forall|j: int| 0 <= j < i ==> (#[trigger] st.fetched(old_leaf)[j]).id != id) ==> data_in(
                st.fetched(old_leaf),
                id,
                st.block_size,
            ) == st.fetched(old_leaf)[i].data && st.worked_on(id, old_leaf, new_leaf, data)
                == st.fetched(old_leaf).update(
                i,
                BlockView {
                    id,
                    leaf: new_leaf,
                    is_dummy: st.fetched(old_leaf)[i].is_dummy,
                    data: match data {
                        Some(d) => d,
                        None => st.fetched(old_leaf)[i].data,
                    },
                },
            ),
        (forall|j: int|
            0 <= j < st.fetched(old_leaf).len() ==> (#[trigger] st.fetched(old_leaf)[j]).id != id)
            ==> data_in(st.fetched(old_leaf), id, st.block_size) == Seq::new(
            st.block_size,
            |i: int| 0u8,
        ) && st.worked_on(id, old_leaf, new_leaf, data) == st.fetched(old_leaf).push(
            BlockView {
                id,
                leaf: new_leaf,
                is_dummy: false,
                data: match data {
                    Some(d) => d,
                    None => Seq::new(st.block_size, |i: int| 0u8),
                },
            },
        ),
{
    lemma_position_is_first(st.fetched(old_leaf), id);
    assert(zeros(st.block_size) =~= Seq::new(st.block_size, |i: int| 0u8));
}

/// Refilling a path gives each of its buckets the blocks placed there and then dummies, keeps the
/// rest in the stash, and touches no other bucket and no leaf on record.
#[verifier::rlimit(50)]
pub proof fn refilling_replaces_the_path(st: OramState, stash: Seq<BlockView>, leaf: Leaf)
    requires
        st.num_leaves >= 1,
        st.num_leaves - 1 + leaf < st.tree.len(),
    ensures
        st.refilled(stash, leaf).num_leaves == st.num_leaves,
        st.refilled(stash, leaf).z == st.z,
        st.refilled(stash, leaf).block_size == st.block_size,
        st.refilled(stash, leaf).pos_map == st.pos_map,
        st.refilled(stash, leaf).stash == kept(
            stash,
            st.num_leaves,
            path_to(st.num_leaves - 1 + leaf),
            0,
            st.z,
        ),
        st.refilled(stash, leaf).tree.len() == st.tree.len(),
        forall|k: int|
            0 <= k < path_to(st.num_leaves - 1 + leaf).len() ==> st.refilled(
                stash,
                leaf,
            ).tree[#[trigger] path_to(st.num_leaves - 1 + leaf)[k]] == Seq::new(
                st.z,
                |s: int|
                    if s < placed(
                        stash,
                        st.num_leaves,
                        path_to(st.num_leaves - 1 + leaf),
                        k,
                        st.z,
                    ).len() {
                        placed(
                            stash,
                            st.num_leaves,
                            path_to(st.num_leaves - 1 + leaf),
                            k,
                            st.z,
                        )[s]
                    } else {
                        BlockView {
                            id: 0,
                            leaf: 0,
                            is_dummy: true,
                            data: Seq::new(st.block_size, |i: int| 0u8),
                        }
                    },
            ),
        forall|n: int|
            0 <= n < st.tree.len() && !path_to(st.num_leaves - 1 + leaf).contains(n)
                ==> #[trigger] st.refilled(stash, leaf).tree[n] == st.tree[n],
{
    let nodes = path_to(st.num_leaves - 1 + leaf);
    path_shape(st.num_leaves - 1 + leaf);
    assert(leaf_node(st.num_leaves, leaf as int) == st.num_leaves - 1 + leaf);
    let buckets = Seq::new(
        nodes.len(),
        |k: int| bucket_of(placed(stash, st.num_leaves, nodes, k, st.z), st.z, st.block_size),
    );
    written_buckets_come_back(st.tree, nodes, buckets);
    assert forall|k: int| 0 <= k < nodes.len() implies st.refilled(
        stash,
        leaf,
    ).tree[#[trigger] nodes[k]] == Seq::new(
        st.z,
        |s: int|
            if s < placed(stash, st.num_leaves, nodes, k, st.z).len() {
                placed(stash, st.num_leaves, nodes, k, st.z)[s]
            } else {
                BlockView {
                    id: 0,
                    leaf: 0,
                    is_dummy: true,
                    data: Seq::new(st.block_size, |i: int| 0u8),
                }
            },
    ) by {
        assert(buckets[k] =~= Seq::new(
            st.z,
            |s: int|
                if s < placed(stash, st.num_leaves, nodes, k, st.z).len() {
                    placed(stash, st.num_leaves, nodes, k, st.z)[s]
                } else {
                    BlockView {
                        id: 0,
                        leaf: 0,
                        is_dummy: true,
                        data: Seq::new(st.block_size, |i: int| 0u8),
                    }
                },
        ));
    }
}

/// What an access does to the state: it records the new leaf, works on the fetched blocks, and
/// refills the path.
pub proof fn access_records_and_refills(
    st: OramState,
    id: BlockId,
    old_leaf: Leaf,
    new_leaf: Leaf,
    data: Option<Seq<u8>>,
)
    ensures
        st.accessed(id, old_leaf, new_leaf, data).pos_map == st.pos_map.insert(id, new_leaf),
        st.accessed(id, old_leaf, new_leaf, data).stash == st.refilled(
            st.worked_on(id, old_leaf, new_leaf, data),
            old_leaf,
        ).stash,
        st.accessed(id, old_leaf, new_leaf, data).tree == st.refilled(
            st.worked_on(id, old_leaf, new_leaf, data),
            old_leaf,
        ).tree,
        st.accessed(id, old_leaf, new_leaf, data).num_leaves == st.num_leaves,
        st.accessed(id, old_leaf, new_leaf, data).z == st.z,
        st.accessed(id, old_leaf, new_leaf, data).block_size == st.block_size,
{
}

proof fn lemma_block_was_placed(
    st: OramState,
    stash: Seq<BlockView>,
    leaf: Leaf,
    b: BlockView,
    k: int,
)
    requires
        st.num_leaves >= 1,
        st.num_leaves - 1 + leaf < st.tree.len(),
        0 <= k < path_to(st.num_leaves - 1 + leaf).len(),
        st.refilled(stash, leaf).tree[path_to(st.num_leaves - 1 + leaf)[k]].contains(b),
        !b.is_dummy,
    ensures
        placed(stash, st.num_leaves, path_to(st.num_leaves - 1 + leaf), k, st.z).contains(b),
{
    let nodes = path_to(st.num_leaves - 1 + leaf);
    let here = placed(stash, st.num_leaves, nodes, k, st.z);
    refilling_replaces_the_path(st, stash, leaf);
    let bucket = st.refilled(stash, leaf).tree[nodes[k]];
    let s = choose|s: int| 0 <= s < bucket.len() && bucket[s] == b;
    assert(here[s] == b);
}

proof fn lemma_full_bucket(st: OramState, stash: Seq<BlockView>, leaf: Leaf, k: int)
    requires
        st.num_leaves >= 1,
        st.num_leaves - 1 + leaf < st.tree.len(),
        forall|i: int| 0 <= i < stash.len() ==> !(#[trigger] stash[i]).is_dummy,
        0 <= k < path_to(st.num_leaves - 1 + leaf).len(),
        placed(stash, st.num_leaves, path_to(st.num_leaves - 1 + leaf), k, st.z).len() == st.z,
    ensures
        ({
            let bucket = st.refilled(stash, leaf).tree[path_to(st.num_leaves - 1 + leaf)[k]];
            &&& bucket.len() == st.z
            &&& forall|s: int|
                0 <= s < st.z ==> !(#[trigger] bucket[s]).is_dummy && stash.contains(bucket[s])
        }),
{
    let nodes = path_to(st.num_leaves - 1 + leaf);
    let num = st.num_leaves;
    let here = placed(stash, num, nodes, k, st.z);
    let left = kept(stash, num, nodes, k + 1, st.z);
    choice_splits_stash(left, num, nodes[k], st.z);
    lemma_kept_grows(stash, num, nodes, k + 1, nodes.len() as int, st.z);
    assert forall|s: int| 0 <= s < st.z implies !(#[trigger] here[s]).is_dummy && stash.contains(
        here[s],
    ) by {
        assert(here.contains(here[s]));
        assert(left.contains(here[s]));
        assert(stash.contains(here[s]));
        let i = choose|i: int| 0 <= i < stash.len() && stash[i] == here[s];
        assert(!stash[i].is_dummy);
    }
    refilling_replaces_the_path(st, stash, leaf);
    assert(st.refilled(stash, leaf).tree[nodes[k]] =~= here);
}

/// No block stays above free room: where a block is left in the stash, or lies in bucket `m` of the
/// refilled path, every deeper bucket `n` of that path that is also on the path to the block's leaf
/// is full of blocks from the stash. (On a path, deeper nodes have higher numbers.)
#[verifier::rlimit(50)]
pub proof fn no_block_stays_above_free_room(
    st: OramState,
    stash: Seq<BlockView>,
    leaf: Leaf,
    b: BlockView,
    n: int,
)
    requires
        st.num_leaves >= 1,
        st.num_leaves - 1 + leaf < st.tree.len(),
        forall|i: int| 0 <= i < stash.len() ==> !(#[trigger] stash[i]).is_dummy,
        0 <= n,
        path_to(st.num_leaves - 1 + leaf).contains(n),
        exists|j: nat| n + 1 == (st.num_leaves + b.leaf) / (#[trigger] pow2(j) as int),
        st.refilled(stash, leaf).stash.contains(b) || (!b.is_dummy && exists|m: int|
            0 <= m < n && path_to(st.num_leaves - 1 + leaf).contains(m) && (
            #[trigger] st.refilled(stash, leaf).tree[m]).contains(b)),
    ensures
        st.refilled(stash, leaf).tree[n].len() == st.z,
        forall|s: int|
            0 <= s < st.z ==> !(#[trigger] st.refilled(stash, leaf).tree[n][s]).is_dummy
                && stash.contains(st.refilled(stash, leaf).tree[n][s]),
{
    let nodes = path_to(st.num_leaves - 1 + leaf);
    let num = st.num_leaves;
    path_shape(st.num_leaves - 1 + leaf);
    fits_on_the_way_to_the_leaf(num, n, b);
    let k = choose|k: int| 0 <= k < nodes.len() && nodes[k] == n;
    if st.refilled(stash, leaf).stash.contains(b) {
        stash_keeps_what_has_no_room(stash, num, nodes, st.z, b, k);
    } else {
        let m = choose|m: int|
            0 <= m < n && nodes.contains(m) && (#[trigger] st.refilled(
                stash,
                leaf,
            ).tree[m]).contains(b);
        let j = choose|j: int| 0 <= j < nodes.len() && nodes[j] == m;
        lemma_block_was_placed(st, stash, leaf, b, j);
        if k <= j {
            assert(nodes[k] <= nodes[j]);
        }
        blocks_lie_as_deep_as_there_is_room(stash, num, nodes, st.z, b, j, k);
    }
    lemma_full_bucket(st, stash, leaf, k);
}

/// The bytes that refilling a path leaves on the server. Slot `s` of the path's node `k` begins with
/// the nonce of its own draw: dummies are drawn for first, slot by slot from the root to the leaf,
/// and then blocks, from the leaf to the root. What the cipher gives for the slot's block, with this
/// nonce and for this place, follows. The other nodes keep their bytes.
#[verifier::rlimit(50)]
pub proof fn refilling_writes_new_slots(
    key: Seq<u8>,
    tree: Seq<Seq<Seq<u8>>>,
    state: Seq<u8>,
    stash: Seq<BlockView>,
    num_leaves: int,
    nodes: Seq<int>,
    z: nat,
    block_size: nat,
    k: int,
    s: int,
)
    requires
        nodes.no_duplicates(),
        forall|i: int| 0 <= i < nodes.len() ==> 0 <= #[trigger] nodes[i] < tree.len(),
        0 <= k < nodes.len(),
    ensures
        ({
            let now = refilled_server(
                key,
                tree,
                state,
                stash,
                num_leaves,
                nodes,
                z,
                block_size,
            );
            let here = placed(stash, num_leaves, nodes, k, z);
            let draw = if s < here.len() {
                nodes.len() * z + (stash.len() - kept(stash, num_leaves, nodes, k + 1, z).len()) + s
            } else {
                k * z + s
            };
            let b = if s < here.len() {
                here[s]
            } else {
                BlockView {
                    id: 0,
                    leaf: 0,
                    is_dummy: true,
                    data: Seq::new(block_size, |i: int| 0u8),
                }
            };
            &&& now.len() == tree.len()
            &&& forall|n: int|
                0 <= n < tree.len() && !nodes.contains(n) ==> #[trigger] now[n] == tree[n]
            &&& now[nodes[k]].len() == z
            &&& 0 <= s < z ==> now[nodes[k]][s].len() == 24 + 16 + b.data.len() + 16
                && now[nodes[k]][s].subrange(0, 24) == nonce_at(state, draw) && forall|i: int|
                24 <= i < now[nodes[k]][s].len() ==> #[trigger] now[nodes[k]][s][i] == sealed(
                    key,
                    nonce_at(state, draw),
                    le_bytes(nodes[k] as nat, 8) + le_bytes(s as nat, 8),
                    encoded(b),
                )[i - 24]
        }),
{
    written_buckets_come_back(
        tree,
        nodes,
        Seq::new(
            nodes.len(),
            |k: int| refilled_slots(key, state, stash, num_leaves, nodes, k, z, block_size),
        ),
    );
    if 0 <= s < z {
        let b = bucket_of(placed(stash, num_leaves, nodes, k, z), z, block_size)[s];
        assert(zeros(block_size) =~= Seq::new(block_size, |i: int| 0u8));
        slots_are_sealed_with_their_draw(
            key,
            state,
            stash,
            num_leaves,
            nodes,
            k,
            s,
            z,
            block_size,
        );
        slot_layout(
            key,
            nonce_at(state, draw_of_slot(stash, num_leaves, nodes, k, s, z)),
            nodes[k],
            s,
            b,
        );
    }
}

/// What an access leaves behind. The last sample taken is on record for the block. The stash holds
/// what the refill kept, and each slot of the path that was fetched its block, under a nonce of its
/// own. All other slots on the server are as they were. The generator has given two samples, or one
/// where the block was known, and one nonce for each slot of the path and each block placed there.
#[verifier::rlimit(50)]
pub proof fn access_in_elementary_terms(
    before: OramClient,
    after: OramClient,
    id: BlockId,
    data: Option<Seq<u8>>,
)
    requires
        before.wf() || before.can_access(id),
        after.follows(before, id, data),
    ensures
        ({
            let num = before.server.num_leaves;
            let z = before.server.z as nat;
            let start = generator_state(before.crypto.rng);
            let known = before.pos_map@.contains_key(id);
            let first = sampled(start, num, usize::BITS as nat);
            let last = if known {
                first
            } else {
                sampled(first.1, num, usize::BITS as nat)
            };
            let old_leaf: Leaf = if known {
                before.pos_map@[id]
            } else {
                (first.0 % num) as u32
            };
            let new_leaf: Leaf = (last.0 % num) as u32;
            let path = path_to(num - 1 + old_leaf);
            let worked = before@.worked_on(id, old_leaf, new_leaf, data);
            &&& after.pos_map@ == before.pos_map@.insert(id, new_leaf)
            &&& after.crypto.key == before.crypto.key
            &&& after.crypto.block_size == before.crypto.block_size
            &&& after.server.num_leaves == num
            &&& after.server.z == before.server.z
            &&& before.answer(id) == data_in(
                before@.fetched(old_leaf),
                id,
                before.crypto.block_size as nat,
            )
            &&& generator_state(after.crypto.rng) == state_after(
                last.1,
                path.len() * z + worked.len() - after.stash@.len(),
            )
            &&& after@.stash == kept(worked, num as int, path, 0, z)
            &&& after.server.tree@.len() == before.server.tree@.len()
            &&& forall|n: int|
                0 <= n < before.server.tree@.len() && !(exists|k: nat|
                    n + 1 == (num + old_leaf) / (#[trigger] pow2(k) as int))
                    ==> #[trigger] after.server@[n] == before.server@[n]
            &&& forall|k: int|
                0 <= k < path.len() ==> (#[trigger] after.server@[path[k]]).len() == z
            &&& forall|k: int, s: int|
                0 <= k < path.len() && 0 <= s < z ==> ({
                    let slot = #[trigger] after.server@[path[k]][s];
                    let here = placed(worked, num as int, path, k, z);
                    let draw = if s < here.len() {
                        path.len() * z + (worked.len() - kept(
                            worked,
                            num as int,
                            path,
                            k + 1,
                            z,
                        ).len()) + s
                    } else {
                        k * z + s
                    };
                    let b = if s < here.len() {
                        here[s]
                    } else {
                        BlockView {
                            id: 0,
                            leaf: 0,
                            is_dummy: true,
                            data: Seq::new(before.crypto.block_size as nat, |i: int| 0u8),
                        }
                    };
                    let aad = le_bytes(path[k] as nat, 8) + le_bytes(s as nat, 8);
                    &&& slot.len() == 24 + 16 + before.crypto.block_size + 16
                    &&& slot.subrange(0, 24) == nonce_at(last.1, draw)
                    &&& forall|i: int|
                        24 <= i < slot.len() ==> #[trigger] slot[i] == sealed(
                            before.crypto.key@,
                            nonce_at(last.1, draw),
                            aad,
                            encoded(b),
                        )[i - 24]
                    &&& opened(
                        before.crypto.key@,
                        slot.subrange(0, 24),
                        aad,
                        slot.subrange(24, slot.len() as int),
                    ) is Some
                    &&& decoded(
                        opened(
                            before.crypto.key@,
                            slot.subrange(0, 24),
                            aad,
                            slot.subrange(24, slot.len() as int),
                        )->0,
                    ) == b
                })
        }),
{
    if before.wf() {
        wf_can_access(before, id);
    }
    let num = before.server.num_leaves;
    let z = before.server.z as nat;
    let key = before.crypto.key@;
    let block_size = before.crypto.block_size as nat;
    let (old_leaf, new_leaf, state) = before.leaves_for(id);
    let path = path_to(num - 1 + old_leaf);
    let worked = before@.worked_on(id, old_leaf, new_leaf, data);
    leaves_are_the_next_samples(before, id);
    drawn_leaf_in_range(before.randomness(), num);
    assert(leaf_node(num as int, old_leaf as int) == num - 1 + old_leaf);
    assert(before@.path(old_leaf) == path);
    assert(after@.path(old_leaf) == path);
    path_shape(num - 1 + old_leaf);
    refilling_replaces_the_path(before@, worked, old_leaf);
    access_records_and_refills(before@, id, old_leaf, new_leaf, data);
    state_is_what_is_held(before);
    state_is_what_is_held(after);
    server_holds_slots(before.server);
    server_holds_slots(after.server);
    assert(after.server@ == refilled_server(
        key,
        before.server@,
        state,
        worked,
        num as int,
        path,
        z,
        block_size,
    ));
    assert forall|n: int|
        0 <= n < before.server.tree@.len() && !(exists|k: nat|
            n + 1 == (num + old_leaf) / (#[trigger] pow2(k) as int)) implies #[trigger] after.server@[n]
        == before.server@[n] by {
        leaf_ancestors_by_halving(n, num as int, old_leaf as int);
        refilling_writes_new_slots(
            key,
            before.server@,
            state,
            worked,
            num as int,
            path,
            z,
            block_size,
            0,
            0,
        );
    }
    assert forall|k: int| 0 <= k < path.len() implies (#[trigger] after.server@[path[k]]).len()
        == z by {
        refilling_writes_new_slots(
            key,
            before.server@,
            state,
            worked,
            num as int,
            path,
            z,
            block_size,
            k,
            0,
        );
    }
    assert forall|k: int, s: int|
        #![trigger after.server@[path[k]][s]]
        0 <= k < path.len() && 0 <= s < z implies ({
        let slot = after.server@[path[k]][s];
        let here = placed(worked, num as int, path, k, z);
        let draw = if s < here.len() {
            path.len() * z + (worked.len() - kept(worked, num as int, path, k + 1, z).len()) + s
        } else {
            k * z + s
        };
        let b = if s < here.len() {
            here[s]
        } else {
            BlockView { id: 0, leaf: 0, is_dummy: true, data: Seq::new(block_size, |i: int| 0u8) }
        };
        let aad = le_bytes(path[k] as nat, 8) + le_bytes(s as nat, 8);
        &&& slot.len() == 24 + 16 + block_size + 16
        &&& slot.subrange(0, 24) == nonce_at(state, draw)
        &&& forall|i: int|
            24 <= i < slot.len() ==> #[trigger] slot[i] == sealed(
                key,
                nonce_at(state, draw),
                aad,
                encoded(b),
            )[i - 24]
        &&& opened(
            key,
            slot.subrange(0, 24),
            aad,
            slot.subrange(24, slot.len() as int),
        ) is Some
        &&& decoded(
            opened(key, slot.subrange(0, 24), aad, slot.subrange(24, slot.len() as int))->0,
        ) == b
    }) by {
        refilling_writes_new_slots(
            key,
            before.server@,
            state,
            worked,
            num as int,
            path,
            z,
            block_size,
            k,
            s,
        );
        let slot = after.server@[path[k]][s];
        valid_slot_opens(key, block_size, path[k], s, slot);
        assert(zeros(block_size) =~= Seq::new(block_size, |i: int| 0u8));
        let held = bucket_of(placed(worked, num as int, path, k, z), z, block_size);
        assert(bucket_holds(key, block_size, path[k], after.server@[path[k]], held));
    }
}

} // verus!
