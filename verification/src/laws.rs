//! What the store promises as a whole.

use crate::aead::NONCE_LEN;
use crate::block::{decode_undoes_encode, BlockId, BlockView, Leaf};
use crate::client::{
    drawn_leaf, drawn_leaf_in_range, lemma_worked_on_ready, wf_can_access, OramClient,
};
use crate::crypto::{nonce_at, sealed_slot, slot_length};
use crate::model::{bucket_of, OramState};
use crate::placement::{choice_splits_stash, chosen, fits, kept, lemma_kept_grows, placed, rest};
use crate::preservation::{access_updates_contents, lemma_position};
use crate::refill::{draws_until, refilled_slots};
use crate::server::written_buckets_come_back;
use crate::tree::{ancestors_are_path, leaf_node, path_shape};
use vstd::prelude::*;

verus! {

/// A block reads as what was last written to it, and writing it changes how no other block reads.
pub proof fn write_changes_one_block(
    st: OramState,
    id: BlockId,
    old_leaf: Leaf,
    new_leaf: Leaf,
    data: Seq<u8>,
)
    requires
        st.inv(),
        old_leaf < st.num_leaves,
        new_leaf < st.num_leaves,
        st.pos_map.contains_key(id) ==> old_leaf == st.pos_map[id],
        data.len() == st.block_size,
    ensures
        st.accessed(id, old_leaf, new_leaf, Some(data)).value(id) == data,
        forall|other: BlockId|
            other != id ==> #[trigger] st.accessed(id, old_leaf, new_leaf, Some(data)).value(other)
                == st.value(other),
{
    access_updates_contents(st, id, old_leaf, new_leaf, Some(data));
}

/// Reading changes how no block reads.
pub proof fn read_changes_no_block(st: OramState, id: BlockId, old_leaf: Leaf, new_leaf: Leaf)
    requires
        st.inv(),
        old_leaf < st.num_leaves,
        new_leaf < st.num_leaves,
        st.pos_map.contains_key(id) ==> old_leaf == st.pos_map[id],
    ensures
        forall|any: BlockId| #[trigger]
            st.accessed(id, old_leaf, new_leaf, None).value(any) == st.value(any),
{
    access_updates_contents(st, id, old_leaf, new_leaf, None);
}

/// A block with a leaf on record is in the stash, or in a bucket on the path to that leaf.
pub proof fn blocks_lie_on_their_paths(st: OramState, id: BlockId)
    requires
        st.inv(),
        st.pos_map.contains_key(id),
    ensures
        exists|b: BlockView|
            b.id == id && b.leaf == st.pos_map[id] && !b.is_dummy && #[trigger] st.holds(b) && (
            st.stash.contains(b) || exists|n: int|
                st.path(st.pos_map[id]).contains(n) && (#[trigger] st.tree[n]).contains(b)),
{
    reveal(OramState::inv);
    let b = choose|b: BlockView| #[trigger] st.holds(b) && b.id == id;
    if st.stash.contains(b) {
        let i = choose|i: int| 0 <= i < st.stash.len() && st.stash[i] == b;
        assert(st.assigned(st.stash[i]));
    } else {
        let n = choose|n: int| 0 <= n < st.tree.len() && (#[trigger] st.tree[n]).contains(b);
        let s = choose|s: int| 0 <= s < st.tree[n].len() && st.tree[n][s] == b;
        assert(st.occupied(n, s));
        ancestors_are_path(n, leaf_node(st.num_leaves, b.leaf as int));
    }
}

/// All slots on the server are equally long, whether they hold a block or a dummy.
pub proof fn slots_equally_long(client: OramClient, n: int, s: int)
    requires
        client.wf(),
        0 <= n < client.server@.len(),
        0 <= s < client.server@[n].len(),
    ensures
        client.server@[n][s].len() == slot_length(client.crypto.block_size as nat),
{
}

/// A block stays in the stash only where every bucket on the path that it fits into is full.
pub proof fn stash_keeps_what_has_no_room(
    stash: Seq<BlockView>,
    num_leaves: int,
    nodes: Seq<int>,
    z: nat,
    b: BlockView,
    k: int,
)
    requires
        kept(stash, num_leaves, nodes, 0, z).contains(b),
        0 <= k < nodes.len(),
        fits(num_leaves, nodes[k], b),
    ensures
        placed(stash, num_leaves, nodes, k, z).len() == z,
{
    lemma_kept_grows(stash, num_leaves, nodes, 0, k, z);
    choice_splits_stash(kept(stash, num_leaves, nodes, k + 1, z), num_leaves, nodes[k], z);
}

/// A bucket holds a block only where every deeper bucket of the path that the block fits into is
/// full.
pub proof fn blocks_lie_as_deep_as_there_is_room(
    stash: Seq<BlockView>,
    num_leaves: int,
    nodes: Seq<int>,
    z: nat,
    b: BlockView,
    k: int,
    deeper: int,
)
    requires
        0 <= k < deeper < nodes.len(),
        placed(stash, num_leaves, nodes, k, z).contains(b),
        fits(num_leaves, nodes[deeper], b),
    ensures
        placed(stash, num_leaves, nodes, deeper, z).len() == z,
{
    let left = kept(stash, num_leaves, nodes, k + 1, z);
    choice_splits_stash(left, num_leaves, nodes[k], z);
    assert(left.contains(b));
    lemma_kept_grows(stash, num_leaves, nodes, k + 1, deeper, z);
    choice_splits_stash(
        kept(stash, num_leaves, nodes, deeper + 1, z),
        num_leaves,
        nodes[deeper],
        z,
    );
}

/// How many nonces are drawn before the one of slot `s` of the bucket of `nodes[k]`, while the path
/// is refilled.
pub open spec fn draw_of_slot(
    stash: Seq<BlockView>,
    num_leaves: int,
    nodes: Seq<int>,
    k: int,
    s: int,
    z: nat,
) -> int {
    if s < placed(stash, num_leaves, nodes, k, z).len() {
        draws_until(stash, num_leaves, nodes, k + 1, z) + s
    } else {
        k * z + s
    }
}

/// Each slot of a refilled path is encrypted anew with the nonce of its own draw.
pub proof fn slots_are_sealed_with_their_draw(
    key: Seq<u8>,
    state: Seq<u8>,
    stash: Seq<BlockView>,
    num_leaves: int,
    nodes: Seq<int>,
    k: int,
    s: int,
    z: nat,
    block_size: nat,
)
    requires
        0 <= k < nodes.len(),
        0 <= s < z,
    ensures
        refilled_slots(key, state, stash, num_leaves, nodes, k, z, block_size)[s] == sealed_slot(
            key,
            nonce_at(state, draw_of_slot(stash, num_leaves, nodes, k, s, z)),
            nodes[k],
            s,
            bucket_of(placed(stash, num_leaves, nodes, k, z), z, block_size)[s],
        ),
{
}

/// No two slots of a refilled path share a draw, and all draws are among those that the refill
/// takes out of the generator.
pub proof fn slots_share_no_draw(
    stash: Seq<BlockView>,
    num_leaves: int,
    nodes: Seq<int>,
    k1: int,
    s1: int,
    k2: int,
    s2: int,
    z: nat,
)
    requires
        0 <= k1 < nodes.len(),
        0 <= k2 < nodes.len(),
        0 <= s1 < z,
        0 <= s2 < z,
        k1 != k2 || s1 != s2,
    ensures
        draw_of_slot(stash, num_leaves, nodes, k1, s1, z) != draw_of_slot(
            stash,
            num_leaves,
            nodes,
            k2,
            s2,
            z,
        ),
        0 <= draw_of_slot(stash, num_leaves, nodes, k1, s1, z) < draws_until(
            stash,
            num_leaves,
            nodes,
            0,
            z,
        ),
{
    let n = nodes.len();
    assert(0 <= k1 * z && k1 * z + z <= n * z) by (nonlinear_arith)
        requires
            0 <= k1 < n,
    ;
    assert(0 <= k2 * z && k2 * z + z <= n * z) by (nonlinear_arith)
        requires
            0 <= k2 < n,
    ;
    if k1 < k2 {
        assert(k1 * z + z <= k2 * z) by (nonlinear_arith)
            requires
                k1 < k2,
        ;
        lemma_kept_grows(stash, num_leaves, nodes, k1 + 1, k2, z);
    }
    if k1 > k2 {
        assert(k2 * z + z <= k1 * z) by (nonlinear_arith)
            requires
                k2 < k1,
        ;
        lemma_kept_grows(stash, num_leaves, nodes, k2 + 1, k1, z);
    }
    choice_splits_stash(kept(stash, num_leaves, nodes, k1 + 1, z), num_leaves, nodes[k1], z);
    choice_splits_stash(kept(stash, num_leaves, nodes, k2 + 1, z), num_leaves, nodes[k2], z);
    lemma_kept_grows(stash, num_leaves, nodes, 0, k1, z);
    lemma_kept_grows(stash, num_leaves, nodes, k1, nodes.len() as int, z);
    lemma_kept_grows(stash, num_leaves, nodes, k1 + 1, nodes.len() as int, z);
    lemma_kept_grows(stash, num_leaves, nodes, k2 + 1, nodes.len() as int, z);
    lemma_kept_grows(stash, num_leaves, nodes, 0, nodes.len() as int, z);
}

/// Two slots that tell the server no more than that they were encrypted with the same nonce: they
/// are equally long and begin with the same nonce.
pub open spec fn look_alike(slot1: Seq<u8>, slot2: Seq<u8>) -> bool {
    slot1.len() == slot2.len() && slot1.subrange(0, NONCE_LEN as int) == slot2.subrange(
        0,
        NONCE_LEN as int,
    )
}

/// The length and the nonce of a slot tell nothing about its block or its place: encrypted after the
/// same draws from the generator, any two blocks of one size, dummies or not, give slots of the same
/// length that begin with the same nonce.
pub proof fn length_and_nonce_hide_block(
    key: Seq<u8>,
    state: Seq<u8>,
    draw: int,
    block_size: nat,
    b1: BlockView,
    node1: int,
    slot1: int,
    b2: BlockView,
    node2: int,
    slot2: int,
)
    requires
        b1.data.len() == block_size,
        b2.data.len() == block_size,
    ensures
        sealed_slot(key, nonce_at(state, draw), node1, slot1, b1).len() == slot_length(block_size),
        sealed_slot(key, nonce_at(state, draw), node1, slot1, b1).subrange(0, NONCE_LEN as int)
            == nonce_at(state, draw),
        look_alike(
            sealed_slot(key, nonce_at(state, draw), node1, slot1, b1),
            sealed_slot(key, nonce_at(state, draw), node2, slot2, b2),
        ),
{
    let nonce = nonce_at(state, draw);
    decode_undoes_encode(b1);
    decode_undoes_encode(b2);
    assert(sealed_slot(key, nonce, node1, slot1, b1).subrange(0, NONCE_LEN as int) =~= nonce);
    assert(sealed_slot(key, nonce, node2, slot2, b2).subrange(0, NONCE_LEN as int) =~= nonce);
}

/// Two lists of blocks that agree in all but the data of the blocks with an id.
pub open spec fn same_but_for(s: Seq<BlockView>, t: Seq<BlockView>, id: BlockId) -> bool {
    s.len() == t.len() && forall|i: int|
        0 <= i < s.len() ==> {
            &&& (#[trigger] s[i]).id == (#[trigger] t[i]).id
            &&& s[i].leaf == t[i].leaf
            &&& s[i].is_dummy == t[i].is_dummy
            &&& s[i].id != id ==> s[i].data == t[i].data
        }
}

proof fn lemma_choice_ignores_data(
    s: Seq<BlockView>,
    t: Seq<BlockView>,
    id: BlockId,
    num_leaves: int,
    node: int,
    z: nat,
)
    requires
        same_but_for(s, t, id),
    ensures
        same_but_for(chosen(s, num_leaves, node, z), chosen(t, num_leaves, node, z), id),
        same_but_for(rest(s, num_leaves, node, z), rest(t, num_leaves, node, z), id),
    decreases s.len(),
{
    if s.len() > 0 {
        assert(s[s.len() - 1].leaf == t[s.len() - 1].leaf);
        lemma_choice_ignores_data(s.drop_last(), t.drop_last(), id, num_leaves, node, z);
    }
}

proof fn lemma_refill_ignores_data(
    s: Seq<BlockView>,
    t: Seq<BlockView>,
    id: BlockId,
    num_leaves: int,
    nodes: Seq<int>,
    k: int,
    z: nat,
)
    requires
        same_but_for(s, t, id),
        0 <= k <= nodes.len(),
    ensures
        same_but_for(kept(s, num_leaves, nodes, k, z), kept(t, num_leaves, nodes, k, z), id),
        k < nodes.len() ==> same_but_for(
            placed(s, num_leaves, nodes, k, z),
            placed(t, num_leaves, nodes, k, z),
            id,
        ),
    decreases nodes.len() - k,
{
    if k < nodes.len() {
        lemma_refill_ignores_data(s, t, id, num_leaves, nodes, k + 1, z);
        lemma_choice_ignores_data(
            kept(s, num_leaves, nodes, k + 1, z),
            kept(t, num_leaves, nodes, k + 1, z),
            id,
            num_leaves,
            nodes[k],
            z,
        );
    }
}

/// What an access leaves on the server: the path is refilled, and the other nodes are as before.
proof fn lemma_server_after(client: OramClient, id: BlockId, data: Option<Seq<u8>>)
    requires
        client.can_access(id),
        data matches Some(d) ==> d.len() == client@.block_size,
    ensures
        client.server_after(id, data).len() == client.server@.len(),
        ({
            let (old_leaf, new_leaf, state) = client.leaves_for(id);
            let nodes = client@.path(old_leaf);
            let worked = client@.worked_on(id, old_leaf, new_leaf, data);
            &&& forall|k: int|
                0 <= k < nodes.len() ==> client.server_after(id, data)[#[trigger] nodes[k]]
                    == refilled_slots(
                    client.crypto.key@,
                    state,
                    worked,
                    client@.num_leaves,
                    nodes,
                    k,
                    client@.z,
                    client@.block_size,
                )
            &&& forall|k: int, s: int|
                0 <= k < nodes.len() && 0 <= s < client@.z ==> (#[trigger] bucket_of(
                    placed(worked, client@.num_leaves, nodes, k, client@.z),
                    client@.z,
                    client@.block_size,
                )[s]).data.len() == client@.block_size
            &&& forall|n: int|
                0 <= n < client.server@.len() && !nodes.contains(n) ==> #[trigger] client.server_after(
                    id,
                    data,
                )[n] == client.server@[n]
        }),
{
    let st = client@;
    let n = client.server.num_leaves;
    let (old_leaf, new_leaf, state) = client.leaves_for(id);
    let nodes = st.path(old_leaf);
    let worked = st.worked_on(id, old_leaf, new_leaf, data);
    drawn_leaf_in_range(client.randomness(), n);
    drawn_leaf_in_range(drawn_leaf(client.randomness(), n).1, n);
    lemma_worked_on_ready(client, id, old_leaf, new_leaf, data);
    path_shape(leaf_node(st.num_leaves, old_leaf as int));
    written_buckets_come_back(
        client.server@,
        nodes,
        Seq::new(
            nodes.len(),
            |k: int|
                refilled_slots(
                    client.crypto.key@,
                    state,
                    worked,
                    st.num_leaves,
                    nodes,
                    k,
                    st.z,
                    st.block_size,
                ),
        ),
    );
    assert forall|k: int, s: int| 0 <= k < nodes.len() && 0 <= s < st.z implies (
    #[trigger] bucket_of(
        placed(worked, st.num_leaves, nodes, k, st.z),
        st.z,
        st.block_size,
    )[s]).data.len() == st.block_size by {
        let here = placed(worked, st.num_leaves, nodes, k, st.z);
        if s < here.len() {
            let left = kept(worked, st.num_leaves, nodes, k + 1, st.z);
            choice_splits_stash(left, st.num_leaves, nodes[k], st.z);
            lemma_kept_grows(worked, st.num_leaves, nodes, k + 1, nodes.len() as int, st.z);
            assert(here.contains(here[s]));
            assert(left.contains(here[s]));
            let i = choose|i: int| 0 <= i < worked.len() && worked[i] == here[s];
            assert(worked[i].data.len() == st.block_size);
        }
    }
}

/// An access does not show what it is for. Whatever it writes, or if it reads: it is answered with
/// `client.answer(id)`, touches the same path and draws as much from the generator, encrypts each
/// slot of the path with the same draw, and leaves the same position map. The stashes agree in all
/// but the data of `id`, and each slot on the server has the same length and the same nonce.
pub proof fn access_hides_operation(
    client: OramClient,
    id: BlockId,
    data1: Option<Seq<u8>>,
    data2: Option<Seq<u8>>,
)
    requires
        client.wf() || client.can_access(id),
        data1 matches Some(d) ==> d.len() == client.crypto.block_size,
        data2 matches Some(d) ==> d.len() == client.crypto.block_size,
    ensures
        client.randomness_after(id, data1) == client.randomness_after(id, data2),
        client.server_after(id, data1).len() == client.server@.len(),
        client.server_after(id, data2).len() == client.server@.len(),
        ({
            let (old_leaf, new_leaf, _) = client.leaves_for(id);
            let after1 = client@.accessed(id, old_leaf, new_leaf, data1);
            let after2 = client@.accessed(id, old_leaf, new_leaf, data2);
            &&& after1.pos_map == after2.pos_map
            &&& same_but_for(after1.stash, after2.stash, id)
            &&& forall|k: int, s: int|
                0 <= k < client@.path(old_leaf).len() && 0 <= s < client@.z
                    ==> #[trigger] draw_of_slot(
                    client@.worked_on(id, old_leaf, new_leaf, data1),
                    client@.num_leaves,
                    client@.path(old_leaf),
                    k,
                    s,
                    client@.z,
                ) == draw_of_slot(
                    client@.worked_on(id, old_leaf, new_leaf, data2),
                    client@.num_leaves,
                    client@.path(old_leaf),
                    k,
                    s,
                    client@.z,
                )
            &&& forall|n: int|
                0 <= n < client.server@.len() && !client@.path(old_leaf).contains(n) ==> (
                #[trigger] client.server_after(id, data1)[n]) == client.server@[n]
                    && client.server_after(id, data2)[n] == client.server@[n]
            &&& forall|n: int|
                0 <= n < client.server@.len() ==> (#[trigger] client.server_after(
                    id,
                    data1,
                )[n]).len() == client.server_after(id, data2)[n].len()
            &&& forall|n: int, s: int|
                0 <= n < client.server@.len() && 0 <= s < client.server_after(id, data1)[n].len()
                    ==> look_alike(
                    #[trigger] client.server_after(id, data1)[n][s],
                    client.server_after(id, data2)[n][s],
                )
        }),
{
    if client.wf() {
        wf_can_access(client, id);
    }
    let st = client@;
    let (old_leaf, new_leaf, state) = client.leaves_for(id);
    let nodes = st.path(old_leaf);
    let worked1 = st.worked_on(id, old_leaf, new_leaf, data1);
    let worked2 = st.worked_on(id, old_leaf, new_leaf, data2);
    lemma_position(st.fetched(old_leaf), id);
    assert(same_but_for(worked1, worked2, id));
    lemma_refill_ignores_data(worked1, worked2, id, st.num_leaves, nodes, 0, st.z);
    assert forall|k: int, s: int| 0 <= k < nodes.len() && 0 <= s < st.z implies #[trigger]
        draw_of_slot(worked1, st.num_leaves, nodes, k, s, st.z) == draw_of_slot(
        worked2,
        st.num_leaves,
        nodes,
        k,
        s,
        st.z,
    ) by {
        lemma_refill_ignores_data(worked1, worked2, id, st.num_leaves, nodes, k, st.z);
        lemma_refill_ignores_data(worked1, worked2, id, st.num_leaves, nodes, k + 1, st.z);
    }
    lemma_server_after(client, id, data1);
    lemma_server_after(client, id, data2);
    let server1 = client.server_after(id, data1);
    let server2 = client.server_after(id, data2);
    assert forall|n: int| 0 <= n < client.server@.len() implies (#[trigger] server1[n]).len()
        == server2[n].len() by {
        if nodes.contains(n) {
            let k = choose|k: int| 0 <= k < nodes.len() && nodes[k] == n;
            assert(server1[nodes[k]].len() == st.z && server2[nodes[k]].len() == st.z);
        }
    }
    assert forall|n: int, s: int|
        0 <= n < client.server@.len() && 0 <= s < server1[n].len() implies look_alike(
        #[trigger] server1[n][s],
        server2[n][s],
    ) by {
        if nodes.contains(n) {
            let k = choose|k: int| 0 <= k < nodes.len() && nodes[k] == n;
            let key = client.crypto.key@;
            assert(server1[nodes[k]].len() == st.z);
            slots_are_sealed_with_their_draw(
                key,
                state,
                worked1,
                st.num_leaves,
                nodes,
                k,
                s,
                st.z,
                st.block_size,
            );
            slots_are_sealed_with_their_draw(
                key,
                state,
                worked2,
                st.num_leaves,
                nodes,
                k,
                s,
                st.z,
                st.block_size,
            );
            length_and_nonce_hide_block(
                key,
                state,
                draw_of_slot(worked1, st.num_leaves, nodes, k, s, st.z),
                st.block_size,
                bucket_of(
                    placed(worked1, st.num_leaves, nodes, k, st.z),
                    st.z,
                    st.block_size,
                )[s],
                n,
                s,
                bucket_of(
                    placed(worked2, st.num_leaves, nodes, k, st.z),
                    st.z,
                    st.block_size,
                )[s],
                n,
                s,
            );
        }
    }
}

} // verus!
