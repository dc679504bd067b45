//! Every access keeps the invariant of the store, finds the data that it looks for, and changes
//! the data of no other block.

use crate::block::{real_block, BlockId, BlockView, Leaf};
use crate::model::{bucket_of, data_in, position, reals, reals_of, with_block, OramState};
use crate::placement::{
    all_in, choice_splits_stash, disjoint_ids, distinct_ids, fits, kept, lemma_push_contains,
    placed, refill_splits_stash,
};
use crate::server::written_buckets_come_back;
use crate::tree::{ancestors_are_path, leaf_node, path_shape};
use vstd::prelude::*;

verus! {

/// Whether a block carries data and lies in the bucket of one of the nodes.
pub open spec fn lies_in(tree: Seq<Seq<BlockView>>, nodes: Seq<int>, b: BlockView) -> bool {
    !b.is_dummy && exists|k: int| 0 <= k < nodes.len() && tree[#[trigger] nodes[k]].contains(b)
}

/// Whether a block carries data and lies in the tree, but in none of the nodes' buckets.
pub open spec fn lies_outside(tree: Seq<Seq<BlockView>>, nodes: Seq<int>, b: BlockView) -> bool {
    !b.is_dummy && exists|n: int|
        0 <= n < tree.len() && !nodes.contains(n) && (#[trigger] tree[n]).contains(b)
}

proof fn lemma_reals_contain(bucket: Seq<BlockView>)
    ensures
        forall|b: BlockView| #[trigger]
            reals(bucket).contains(b) <==> bucket.contains(b) && !b.is_dummy,
    decreases bucket.len(),
{
    if bucket.len() > 0 {
        let init = bucket.drop_last();
        lemma_reals_contain(init);
        lemma_push_contains(init, bucket.last());
        assert(init.push(bucket.last()) =~= bucket);
        lemma_push_contains(reals(init), bucket.last());
    }
}

proof fn lemma_reals_distinct(bucket: Seq<BlockView>)
    requires
        forall|i: int, j: int|
            0 <= i < j < bucket.len() && !(#[trigger] bucket[i]).is_dummy && !(
            #[trigger] bucket[j]).is_dummy ==> bucket[i].id != bucket[j].id,
    ensures
        distinct_ids(reals(bucket)),
    decreases bucket.len(),
{
    if bucket.len() > 0 {
        let init = bucket.drop_last();
        assert forall|i: int, j: int|
            0 <= i < j < init.len() && !(#[trigger] init[i]).is_dummy && !(
            #[trigger] init[j]).is_dummy implies init[i].id != init[j].id by {
            assert(init[i] == bucket[i] && init[j] == bucket[j]);
        }
        lemma_reals_distinct(init);
        lemma_reals_contain(init);
        if !bucket.last().is_dummy {
            let r = reals(init);
            assert forall|i: int| 0 <= i < r.len() implies (#[trigger] r[i]).id
                != bucket.last().id by {
                assert(r.contains(r[i]));
                let k = choose|k: int| 0 <= k < init.len() && init[k] == r[i];
                assert(bucket[k] == r[i]);
                assert(!bucket[k].is_dummy && !bucket[bucket.len() - 1].is_dummy);
            }
        }
    }
}

proof fn lemma_concat_contains<A>(s: Seq<A>, t: Seq<A>)
    ensures
        forall|b: A| #[trigger] (s + t).contains(b) <==> s.contains(b) || t.contains(b),
{
    assert forall|b: A| #[trigger] (s + t).contains(b) <==> s.contains(b) || t.contains(b) by {
        let u = s + t;
        if s.contains(b) {
            let i = choose|i: int| 0 <= i < s.len() && s[i] == b;
            assert(u[i] == b);
        }
        if t.contains(b) {
            let i = choose|i: int| 0 <= i < t.len() && t[i] == b;
            assert(u[s.len() + i] == b);
        }
        if u.contains(b) {
            let i = choose|i: int| 0 <= i < u.len() && u[i] == b;
            if i < s.len() {
                assert(s[i] == b);
            } else {
                assert(t[i - s.len()] == b);
            }
        }
    }
}

/// The blocks that are fetched from the nodes are those that carry data and lie in their buckets.
pub proof fn lemma_reals_of_contain(tree: Seq<Seq<BlockView>>, nodes: Seq<int>)
    ensures
        forall|b: BlockView| #[trigger]
            reals_of(tree, nodes).contains(b) <==> lies_in(tree, nodes, b),
    decreases nodes.len(),
{
    if nodes.len() > 0 {
        let init = nodes.drop_last();
        let n = nodes.last();
        lemma_reals_of_contain(tree, init);
        lemma_reals_contain(tree[n]);
        lemma_concat_contains(reals_of(tree, init), reals(tree[n]));
        assert forall|b: BlockView| #[trigger] reals_of(tree, nodes).contains(b) <==> lies_in(
            tree,
            nodes,
            b,
        ) by {
            if lies_in(tree, init, b) {
                let k = choose|k: int| 0 <= k < init.len() && tree[#[trigger] init[k]].contains(b);
                assert(nodes[k] == init[k]);
            }
            if lies_in(tree, nodes, b) {
                let k = choose|k: int|
                    0 <= k < nodes.len() && tree[#[trigger] nodes[k]].contains(b);
                if k < init.len() {
                    assert(init[k] == nodes[k]);
                }
            }
            assert(nodes[nodes.len() - 1] == n);
        }
    }
}

proof fn lemma_reals_of(st: OramState, nodes: Seq<int>)
    requires
        st.without_doubles(),
        nodes.no_duplicates(),
        forall|k: int| 0 <= k < nodes.len() ==> 0 <= #[trigger] nodes[k] < st.tree.len(),
    ensures
        forall|b: BlockView| #[trigger]
            reals_of(st.tree, nodes).contains(b) <==> lies_in(st.tree, nodes, b),
        distinct_ids(reals_of(st.tree, nodes)),
    decreases nodes.len(),
{
    let tree = st.tree;
    lemma_reals_of_contain(tree, nodes);
    if nodes.len() > 0 {
        let init = nodes.drop_last();
        let n = nodes.last();
        let before = reals_of(tree, init);
        let here = reals(tree[n]);
        assert forall|k: int| 0 <= k < init.len() implies 0 <= #[trigger] init[k] < tree.len() by {
            assert(init[k] == nodes[k]);
        }
        lemma_reals_of(st, init);
        lemma_reals_contain(tree[n]);
        assert forall|i: int, j: int|
            0 <= i < j < tree[n].len() && !(#[trigger] tree[n][i]).is_dummy && !(
            #[trigger] tree[n][j]).is_dummy implies tree[n][i].id != tree[n][j].id by {
            assert(st.occupied(n, i) && st.occupied(n, j));
        }
        lemma_reals_distinct(tree[n]);
        assert forall|i: int, j: int|
            0 <= i < before.len() && 0 <= j < here.len() implies (#[trigger] before[i]).id != (
        #[trigger] here[j]).id by {
            let b = before[i];
            let c = here[j];
            assert(before.contains(b) && here.contains(c));
            let k = choose|k: int| 0 <= k < init.len() && tree[#[trigger] init[k]].contains(b);
            let s1 = choose|s: int| 0 <= s < tree[init[k]].len() && tree[init[k]][s] == b;
            let s2 = choose|s: int| 0 <= s < tree[n].len() && tree[n][s] == c;
            assert(init[k] == nodes[k] && nodes[k] != n);
            assert(st.occupied(init[k], s1) && st.occupied(n, s2));
        }
    }
}

/// What holds of the stash once the path to `leaf` was fetched.
proof fn lemma_fetched(st: OramState, leaf: Leaf)
    requires
        st.inv(),
        leaf < st.num_leaves,
    ensures
        st.path(leaf).no_duplicates(),
        forall|k: int|
            0 <= k < st.path(leaf).len() ==> 0 <= #[trigger] st.path(leaf)[k] < st.tree.len(),
        distinct_ids(st.fetched(leaf)),
        forall|b: BlockView| #[trigger]
            st.fetched(leaf).contains(b) <==> st.stash.contains(b) || lies_in(
                st.tree,
                st.path(leaf),
                b,
            ),
        forall|b: BlockView| #[trigger]
            st.holds(b) <==> st.fetched(leaf).contains(b) || lies_outside(
                st.tree,
                st.path(leaf),
                b,
            ),
        forall|b: BlockView, c: BlockView| #[trigger]
            st.fetched(leaf).contains(b) && #[trigger] lies_outside(st.tree, st.path(leaf), c)
                ==> b.id != c.id,
        forall|b: BlockView| #[trigger]
            st.fetched(leaf).contains(b) ==> !b.is_dummy && b.data.len() == st.block_size
                && st.assigned(b),
{
    reveal(OramState::inv);
    let tree = st.tree;
    let nodes = st.path(leaf);
    let on = reals_of(tree, nodes);
    let all = st.fetched(leaf);
    path_shape(leaf_node(st.num_leaves, leaf as int));
    lemma_reals_of(st, nodes);
    lemma_concat_contains(st.stash, on);
    assert forall|i: int, j: int|
        0 <= i < st.stash.len() && 0 <= j < on.len() implies (#[trigger] st.stash[i]).id != (
    #[trigger] on[j]).id by {
        let b = on[j];
        assert(on.contains(b));
        let k = choose|k: int| 0 <= k < nodes.len() && tree[#[trigger] nodes[k]].contains(b);
        let s = choose|s: int| 0 <= s < tree[nodes[k]].len() && tree[nodes[k]][s] == b;
        assert(st.occupied(nodes[k], s));
    }
    assert forall|b: BlockView| #[trigger] st.holds(b) <==> all.contains(b) || lies_outside(
        tree,
        nodes,
        b,
    ) by {
        if !b.is_dummy && exists|n: int| 0 <= n < tree.len() && (#[trigger] tree[n]).contains(b) {
            let n = choose|n: int| 0 <= n < tree.len() && (#[trigger] tree[n]).contains(b);
            if nodes.contains(n) {
                let k = choose|k: int| 0 <= k < nodes.len() && nodes[k] == n;
                assert(tree[nodes[k]].contains(b));
            }
        }
        if lies_in(tree, nodes, b) {
            let k = choose|k: int| 0 <= k < nodes.len() && tree[#[trigger] nodes[k]].contains(b);
            assert(tree[nodes[k]].contains(b));
        }
    }
    assert forall|b: BlockView, c: BlockView| #[trigger]
        all.contains(b) && #[trigger] lies_outside(tree, nodes, c) implies b.id != c.id by {
        let n = choose|n: int|
            0 <= n < tree.len() && !nodes.contains(n) && (#[trigger] tree[n]).contains(c);
        let s = choose|s: int| 0 <= s < tree[n].len() && tree[n][s] == c;
        assert(st.occupied(n, s));
        if st.stash.contains(b) {
            let i = choose|i: int| 0 <= i < st.stash.len() && st.stash[i] == b;
            assert(st.stash[i].id != tree[n][s].id);
        } else {
            let k = choose|k: int| 0 <= k < nodes.len() && tree[#[trigger] nodes[k]].contains(b);
            let s1 = choose|s1: int| 0 <= s1 < tree[nodes[k]].len() && tree[nodes[k]][s1] == b;
            assert(st.occupied(nodes[k], s1));
            assert(nodes.contains(nodes[k]));
        }
    }
    assert forall|b: BlockView| #[trigger] all.contains(b) implies !b.is_dummy && b.data.len()
        == st.block_size && st.assigned(b) by {
        if st.stash.contains(b) {
            let i = choose|i: int| 0 <= i < st.stash.len() && st.stash[i] == b;
            assert(st.assigned(st.stash[i]));
        } else {
            let k = choose|k: int| 0 <= k < nodes.len() && tree[#[trigger] nodes[k]].contains(b);
            let s = choose|s: int| 0 <= s < tree[nodes[k]].len() && tree[nodes[k]][s] == b;
            assert(st.occupied(nodes[k], s));
        }
    }
}

/// In a store no two blocks that it holds share an id.
pub proof fn one_block_per_id(st: OramState, b: BlockView, c: BlockView)
    requires
        st.without_doubles(),
        st.holds(b),
        st.holds(c),
        b.id == c.id,
    ensures
        b == c,
{
    let tree = st.tree;
    if !st.stash.contains(b) {
        let n = choose|n: int| 0 <= n < tree.len() && (#[trigger] tree[n]).contains(b);
        let s = choose|s: int| 0 <= s < tree[n].len() && tree[n][s] == b;
        assert(st.occupied(n, s));
        if st.stash.contains(c) {
            let i = choose|i: int| 0 <= i < st.stash.len() && st.stash[i] == c;
            assert(st.stash[i].id != tree[n][s].id);
        } else {
            let n2 = choose|n2: int| 0 <= n2 < tree.len() && (#[trigger] tree[n2]).contains(c);
            let s2 = choose|s2: int| 0 <= s2 < tree[n2].len() && tree[n2][s2] == c;
            assert(st.occupied(n2, s2));
        }
    } else {
        let i = choose|i: int| 0 <= i < st.stash.len() && st.stash[i] == b;
        if st.stash.contains(c) {
            let j = choose|j: int| 0 <= j < st.stash.len() && st.stash[j] == c;
            if i < j {
                assert(st.stash[i].id != st.stash[j].id);
            } else if j < i {
                assert(st.stash[j].id != st.stash[i].id);
            }
        } else {
            let n2 = choose|n2: int| 0 <= n2 < tree.len() && (#[trigger] tree[n2]).contains(c);
            let s2 = choose|s2: int| 0 <= s2 < tree[n2].len() && tree[n2][s2] == c;
            assert(st.occupied(n2, s2));
            assert(st.stash[i].id != tree[n2][s2].id);
        }
    }
}

/// The contents of a store at an id are the data of the block that it holds.
pub proof fn contents_are_held_data(st: OramState, b: BlockView)
    requires
        st.without_doubles(),
        st.holds(b),
        st.pos_map.contains_key(b.id),
    ensures
        st.contents().contains_key(b.id),
        st.contents()[b.id] == b.data,
{
    let c = choose|c: BlockView| #[trigger] st.holds(c) && c.id == b.id;
    one_block_per_id(st, b, c);
}

/// A block found by its id has that id, and where none is found there is none.
pub proof fn lemma_position(blocks: Seq<BlockView>, id: BlockId)
    ensures
        match position(blocks, id) {
            Some(i) => 0 <= i < blocks.len() && blocks[i].id == id,
            None => forall|b: BlockView| #[trigger] blocks.contains(b) ==> b.id != id,
        },
    decreases blocks.len(),
{
    if blocks.len() > 0 {
        lemma_position(blocks.drop_last(), id);
        lemma_push_contains(blocks.drop_last(), blocks.last());
        assert(blocks.drop_last().push(blocks.last()) =~= blocks);
    }
}

/// Giving a block a leaf and data leaves all blocks with other ids as they are.
proof fn lemma_with_block(blocks: Seq<BlockView>, id: BlockId, leaf: Leaf, data: Seq<u8>)
    requires
        distinct_ids(blocks),
        forall|b: BlockView| #[trigger] blocks.contains(b) ==> !b.is_dummy,
    ensures
        distinct_ids(with_block(blocks, id, leaf, data)),
        forall|b: BlockView| #[trigger]
            with_block(blocks, id, leaf, data).contains(b) <==> b == real_block(id, leaf, data) || (
            b.id != id && blocks.contains(b)),
{
    let now = with_block(blocks, id, leaf, data);
    let new = real_block(id, leaf, data);
    lemma_position(blocks, id);
    match position(blocks, id) {
        Some(i) => {
            assert(blocks.contains(blocks[i]));
            assert(now[i] == new);
            assert forall|b: BlockView| #[trigger] now.contains(b) <==> b == new || (b.id != id
                && blocks.contains(b)) by {
                if now.contains(b) {
                    let j = choose|j: int| 0 <= j < now.len() && now[j] == b;
                    if j < i {
                        assert(blocks[j].id != blocks[i].id);
                    } else if j > i {
                        assert(blocks[i].id != blocks[j].id);
                    }
                    if j != i {
                        assert(blocks[j] == b);
                    }
                }
                if b.id != id && blocks.contains(b) {
                    let j = choose|j: int| 0 <= j < blocks.len() && blocks[j] == b;
                    assert(now[j] == b);
                }
            }
            assert forall|j: int, k: int| 0 <= j < k < now.len() implies (#[trigger] now[j]).id != (
            #[trigger] now[k]).id by {
                assert(blocks[j].id != blocks[k].id);
            }
        },
        None => {
            lemma_push_contains(blocks, new);
            assert forall|j: int, k: int| 0 <= j < k < now.len() implies (#[trigger] now[j]).id != (
            #[trigger] now[k]).id by {
                assert(blocks.contains(blocks[j]));
                if k < blocks.len() {
                    assert(blocks[j].id != blocks[k].id);
                }
            }
        },
    }
}

proof fn lemma_bucket_contains(blocks: Seq<BlockView>, z: nat, block_size: nat)
    requires
        blocks.len() <= z,
        forall|b: BlockView| #[trigger] blocks.contains(b) ==> !b.is_dummy,
    ensures
        forall|b: BlockView|
            !b.is_dummy ==> (#[trigger] bucket_of(blocks, z, block_size).contains(b)
                <==> blocks.contains(b)),
{
    let bucket = bucket_of(blocks, z, block_size);
    assert forall|b: BlockView| !b.is_dummy implies (#[trigger] bucket.contains(b)
        <==> blocks.contains(b)) by {
        if bucket.contains(b) {
            let s = choose|s: int| 0 <= s < bucket.len() && bucket[s] == b;
            assert(blocks[s] == b);
        }
        if blocks.contains(b) {
            let s = choose|s: int| 0 <= s < blocks.len() && blocks[s] == b;
            assert(bucket[s] == b);
        }
    }
}

/// What holds of a slot of the tree once the path to `leaf` was refilled from `stash`: it lies on
/// the path and holds a block that was placed there or a dummy, or it is as it was before.
proof fn lemma_refilled_slots(st: OramState, stash: Seq<BlockView>, leaf: Leaf)
    requires
        st.well_shaped(),
        leaf < st.num_leaves,
    ensures
        st.path(leaf).no_duplicates(),
        forall|k: int|
            0 <= k < st.path(leaf).len() ==> 0 <= #[trigger] st.path(leaf)[k] < st.tree.len(),
        st.refilled(stash, leaf).tree.len() == st.tree.len(),
        forall|k: int|
            0 <= k < st.path(leaf).len() ==> st.refilled(stash, leaf).tree[#[trigger] st.path(
                leaf,
            )[k]] == bucket_of(
                placed(stash, st.num_leaves, st.path(leaf), k, st.z),
                st.z,
                st.block_size,
            ),
        forall|n: int|
            0 <= n < st.tree.len() && !st.path(leaf).contains(n)
                ==> #[trigger] st.refilled(stash, leaf).tree[n] == st.tree[n],
        forall|k: int|
            0 <= k < st.path(leaf).len() ==> (#[trigger] placed(
                stash,
                st.num_leaves,
                st.path(leaf),
                k,
                st.z,
            )).len() <= st.z,
{
    let nodes = st.path(leaf);
    path_shape(leaf_node(st.num_leaves, leaf as int));
    let buckets = Seq::new(
        nodes.len(),
        |k: int| bucket_of(placed(stash, st.num_leaves, nodes, k, st.z), st.z, st.block_size),
    );
    written_buckets_come_back(st.tree, nodes, buckets);
    assert forall|k: int| 0 <= k < nodes.len() implies (#[trigger] placed(
        stash,
        st.num_leaves,
        nodes,
        k,
        st.z,
    )).len() <= st.z by {
        choice_splits_stash(
            kept(stash, st.num_leaves, nodes, k + 1, st.z),
            st.num_leaves,
            nodes[k],
            st.z,
        );
    }
}

/// Refilling a path from `stash` leaves a store that holds the blocks of `stash` and the blocks
/// outside the path, each of them once.
proof fn lemma_refilled(st: OramState, stash: Seq<BlockView>, leaf: Leaf)
    requires
        st.well_shaped(),
        st.without_doubles(),
        leaf < st.num_leaves,
        distinct_ids(stash),
        forall|b: BlockView| #[trigger] stash.contains(b) ==> !b.is_dummy,
        forall|b: BlockView, c: BlockView| #[trigger]
            stash.contains(b) && #[trigger] lies_outside(st.tree, st.path(leaf), c) ==> b.id
                != c.id,
    ensures
        forall|b: BlockView| #[trigger]
            st.refilled(stash, leaf).holds(b) <==> stash.contains(b) || lies_outside(
                st.tree,
                st.path(leaf),
                b,
            ),
        st.refilled(stash, leaf).without_doubles(),
        forall|n: int, s: int| #[trigger]
            st.refilled(stash, leaf).occupied(n, s) && st.path(leaf).contains(n) ==> fits(
                st.num_leaves,
                n,
                st.refilled(stash, leaf).tree[n][s],
            ),
{
    let tree = st.tree;
    let nodes = st.path(leaf);
    let num = st.num_leaves;
    let z = st.z;
    let now = st.refilled(stash, leaf);
    lemma_refilled_slots(st, stash, leaf);
    refill_splits_stash(stash, num, nodes, 0, z);

    assert forall|k: int| 0 <= k < nodes.len() implies all_in(
        #[trigger] placed(stash, num, nodes, k, z),
        stash,
    ) by {
        assert forall|b: BlockView| #[trigger]
            placed(stash, num, nodes, k, z).contains(b) implies stash.contains(b) by {}
    }

    assert forall|b: BlockView| #[trigger] now.holds(b) <==> stash.contains(b) || lies_outside(
        tree,
        nodes,
        b,
    ) by {
        if !b.is_dummy && exists|n: int| 0 <= n < now.tree.len() && (
        #[trigger] now.tree[n]).contains(b) {
            let n = choose|n: int| 0 <= n < now.tree.len() && (#[trigger] now.tree[n]).contains(b);
            if nodes.contains(n) {
                let k = choose|k: int| 0 <= k < nodes.len() && nodes[k] == n;
                let here = placed(stash, num, nodes, k, z);
                lemma_bucket_contains(here, z, st.block_size);
                assert(now.tree[nodes[k]] == bucket_of(here, z, st.block_size));
                assert(here.contains(b));
            } else {
                assert(tree[n].contains(b));
            }
        }
        if stash.contains(b) && !now.stash.contains(b) {
            let k = choose|k: int|
                0 <= k < nodes.len() && #[trigger] placed(stash, num, nodes, k, z).contains(b);
            let here = placed(stash, num, nodes, k, z);
            lemma_bucket_contains(here, z, st.block_size);
            assert(now.tree[nodes[k]] == bucket_of(here, z, st.block_size));
            assert(now.tree[nodes[k]].contains(b));
        }
        if lies_outside(tree, nodes, b) {
            let n = choose|n: int|
                0 <= n < tree.len() && !nodes.contains(n) && (#[trigger] tree[n]).contains(b);
            assert(now.tree[n].contains(b));
        }
    }

    assert forall|n: int, s: int| #[trigger] now.occupied(n, s) && nodes.contains(n) implies fits(
        num,
        n,
        now.tree[n][s],
    ) by {
        let k = choose|k: int| 0 <= k < nodes.len() && nodes[k] == n;
        assert(now.tree[nodes[k]][s] == now.tree[n][s]);
        assert(placed(stash, num, nodes, k, z).contains(now.tree[n][s]));
        choice_splits_stash(kept(stash, num, nodes, k + 1, z), num, nodes[k], z);
    }

    assert forall|n1: int, s1: int, n2: int, s2: int| #[trigger]
        now.occupied(n1, s1) && #[trigger] now.occupied(n2, s2) && now.tree[n1][s1].id
            == now.tree[n2][s2].id implies n1 == n2 && s1 == s2 by {
        let b = now.tree[n1][s1];
        let c = now.tree[n2][s2];
        if nodes.contains(n1) {
            let k1 = choose|k: int| 0 <= k < nodes.len() && nodes[k] == n1;
            let here1 = placed(stash, num, nodes, k1, z);
            assert(now.tree[nodes[k1]][s1] == here1[s1]);
            assert(here1.contains(b));
            if nodes.contains(n2) {
                let k2 = choose|k: int| 0 <= k < nodes.len() && nodes[k] == n2;
                let here2 = placed(stash, num, nodes, k2, z);
                assert(now.tree[nodes[k2]][s2] == here2[s2]);
                if k1 != k2 {
                    assert(disjoint_ids(here1, here2));
                    assert(here1[s1].id != here2[s2].id);
                } else if s1 < s2 {
                    assert(here1[s1].id != here1[s2].id);
                } else if s2 < s1 {
                    assert(here1[s2].id != here1[s1].id);
                }
            } else {
                assert(tree[n2][s2] == c);
                assert(tree[n2].contains(c));
                assert(lies_outside(tree, nodes, c));
            }
        } else {
            assert(tree[n1][s1] == b);
            assert(tree[n1].contains(b));
            assert(st.occupied(n1, s1));
            if nodes.contains(n2) {
                let k2 = choose|k: int| 0 <= k < nodes.len() && nodes[k] == n2;
                let here2 = placed(stash, num, nodes, k2, z);
                assert(now.tree[nodes[k2]][s2] == here2[s2]);
                assert(here2.contains(c));
                assert(lies_outside(tree, nodes, b));
            } else {
                assert(tree[n2][s2] == c);
                assert(st.occupied(n2, s2));
            }
        }
    }

    assert forall|i: int, n: int, s: int|
        0 <= i < now.stash.len() && #[trigger] now.occupied(n, s) implies (
    #[trigger] now.stash[i]).id != now.tree[n][s].id by {
        assert(now.stash.contains(now.stash[i]));
        assert(stash.contains(now.stash[i]));
        if nodes.contains(n) {
            let k = choose|k: int| 0 <= k < nodes.len() && nodes[k] == n;
            let here = placed(stash, num, nodes, k, z);
            assert(now.tree[nodes[k]][s] == here[s]);
            assert(disjoint_ids(here, now.stash));
            assert(here[s].id != now.stash[i].id);
        } else {
            assert(tree[n][s] == now.tree[n][s]);
            assert(tree[n].contains(tree[n][s]));
            assert(lies_outside(tree, nodes, tree[n][s]));
        }
    }
}

/// An access finds the data of the id that it looks for.
pub proof fn access_finds_value(st: OramState, id: BlockId, old_leaf: Leaf)
    requires
        st.inv(),
        old_leaf < st.num_leaves,
        st.pos_map.contains_key(id) ==> old_leaf == st.pos_map[id],
    ensures
        data_in(st.fetched(old_leaf), id, st.block_size) == st.value(id),
        st.value(id).len() == st.block_size,
{
    reveal(OramState::inv);
    let blocks = st.fetched(old_leaf);
    let nodes = st.path(old_leaf);
    lemma_fetched(st, old_leaf);
    lemma_position(blocks, id);
    if st.pos_map.contains_key(id) {
        let b = choose|b: BlockView| #[trigger] st.holds(b) && b.id == id;
        contents_are_held_data(st, b);
        if lies_outside(st.tree, nodes, b) {
            let n = choose|n: int|
                0 <= n < st.tree.len() && !nodes.contains(n) && (#[trigger] st.tree[n]).contains(b);
            let s = choose|s: int| 0 <= s < st.tree[n].len() && st.tree[n][s] == b;
            assert(st.occupied(n, s));
            ancestors_are_path(n, leaf_node(st.num_leaves, old_leaf as int));
        }
        assert(blocks.contains(b));
        let i = position(blocks, id)->0;
        assert(blocks.contains(blocks[i]));
        one_block_per_id(st, blocks[i], b);
    } else {
        if let Some(i) = position(blocks, id) {
            assert(blocks.contains(blocks[i]));
        }
    }
}

/// An access keeps the invariant, sets the data of the id that it is for, and changes the data of
/// no other id.
pub proof fn access_updates_contents(
    st: OramState,
    id: BlockId,
    old_leaf: Leaf,
    new_leaf: Leaf,
    new_data: Option<Seq<u8>>,
)
    requires
        st.inv(),
        old_leaf < st.num_leaves,
        new_leaf < st.num_leaves,
        st.pos_map.contains_key(id) ==> old_leaf == st.pos_map[id],
        new_data matches Some(data) ==> data.len() == st.block_size,
    ensures
        st.accessed(id, old_leaf, new_leaf, new_data).inv(),
        st.accessed(id, old_leaf, new_leaf, new_data).contents() == st.contents().insert(
            id,
            match new_data {
                Some(data) => data,
                None => st.value(id),
            },
        ),
{
    reveal(OramState::inv);
    let blocks = st.fetched(old_leaf);
    let nodes = st.path(old_leaf);
    let data = match new_data {
        Some(data) => data,
        None => data_in(blocks, id, st.block_size),
    };
    let new = real_block(id, new_leaf, data);
    let stash = st.worked_on(id, old_leaf, new_leaf, new_data);
    let now = st.accessed(id, old_leaf, new_leaf, new_data);
    let refilled = st.refilled(stash, old_leaf);
    access_finds_value(st, id, old_leaf);
    lemma_fetched(st, old_leaf);
    lemma_with_block(blocks, id, new_leaf, data);

    // No block outside the path has the id: its block, if there is one, was fetched.
    assert forall|c: BlockView| #[trigger] lies_outside(st.tree, nodes, c) implies c.id != id by {
        if c.id == id {
            assert(st.holds(c));
            let n = choose|n: int|
                0 <= n < st.tree.len() && !nodes.contains(n) && (#[trigger] st.tree[n]).contains(c);
            let s = choose|s: int| 0 <= s < st.tree[n].len() && st.tree[n][s] == c;
            assert(st.occupied(n, s));
            ancestors_are_path(n, leaf_node(st.num_leaves, old_leaf as int));
        }
    }
    assert forall|b: BlockView, c: BlockView| #[trigger]
        stash.contains(b) && #[trigger] lies_outside(st.tree, nodes, c) implies b.id != c.id by {}
    lemma_refilled(st, stash, old_leaf);
    lemma_refilled_slots(st, stash, old_leaf);
    refill_splits_stash(stash, st.num_leaves, nodes, 0, st.z);
    assert(now.tree == refilled.tree && now.stash == refilled.stash);
    assert(forall|n: int, s: int| now.occupied(n, s) == #[trigger] refilled.occupied(n, s));
    assert(forall|b: BlockView| now.holds(b) == #[trigger] refilled.holds(b));

    assert(now.without_doubles()) by {
        assert(distinct_ids(now.stash));
        assert forall|n1: int, s1: int, n2: int, s2: int| #[trigger]
            now.occupied(n1, s1) && #[trigger] now.occupied(n2, s2) && now.tree[n1][s1].id
                == now.tree[n2][s2].id implies n1 == n2 && s1 == s2 by {
            assert(refilled.occupied(n1, s1) && refilled.occupied(n2, s2));
        }
        assert forall|i: int, n: int, s: int|
            0 <= i < now.stash.len() && #[trigger] now.occupied(n, s) implies (
        #[trigger] now.stash[i]).id != now.tree[n][s].id by {
            assert(refilled.occupied(n, s));
            assert(refilled.stash[i].id != refilled.tree[n][s].id);
        }
    }

    // Every block that is held now is the accessed one, or was held before under another id.
    assert forall|b: BlockView| #[trigger] now.holds(b) implies now.assigned(b) && b.data.len()
        == st.block_size && !b.is_dummy by {
        assert(refilled.holds(b));
        if stash.contains(b) {
            if b != new {
                assert(blocks.contains(b));
            }
        } else {
            assert(lies_outside(st.tree, nodes, b));
            let n = choose|n: int|
                0 <= n < st.tree.len() && !nodes.contains(n) && (#[trigger] st.tree[n]).contains(b);
            let s = choose|s: int| 0 <= s < st.tree[n].len() && st.tree[n][s] == b;
            assert(st.occupied(n, s));
            assert(st.tree[n][s].data.len() == st.block_size);
        }
    }

    assert(now.well_shaped()) by {
        assert forall|n: int| 0 <= n < now.tree.len() implies (#[trigger] now.tree[n]).len()
            == now.z by {
            if nodes.contains(n) {
                let k = choose|k: int| 0 <= k < nodes.len() && nodes[k] == n;
                assert(refilled.tree[nodes[k]].len() == st.z);
            } else {
                assert(refilled.tree[n] == st.tree[n]);
            }
        }
        assert forall|n: int, s: int|
            0 <= n < now.tree.len() && 0 <= s < now.z implies (
        #[trigger] now.tree[n][s]).data.len() == now.block_size by {
            let b = now.tree[n][s];
            assert(now.tree[n].len() == now.z);
            if !b.is_dummy {
                assert(now.tree[n].contains(b));
                assert(now.holds(b));
            } else if nodes.contains(n) {
                let k = choose|k: int| 0 <= k < nodes.len() && nodes[k] == n;
                let here = placed(stash, st.num_leaves, nodes, k, st.z);
                assert(refilled.tree[nodes[k]] == bucket_of(here, st.z, st.block_size));
                if s < here.len() {
                    assert(here.contains(here[s]));
                    assert(stash.contains(here[s]));
                }
            } else {
                assert(refilled.tree[n] == st.tree[n]);
                assert(st.tree[n][s].data.len() == st.block_size);
            }
        }
        assert forall|i: int| 0 <= i < now.stash.len() implies (
        #[trigger] now.stash[i]).data.len() == now.block_size && !now.stash[i].is_dummy by {
            assert(now.stash.contains(now.stash[i]));
            assert(now.holds(now.stash[i]));
        }
    }

    assert(now.well_placed()) by {
        assert forall|i: int| 0 <= i < now.stash.len() implies now.assigned(
            #[trigger] now.stash[i],
        ) by {
            assert(now.stash.contains(now.stash[i]));
            assert(now.holds(now.stash[i]));
        }
        assert forall|n: int, s: int| #[trigger] now.occupied(n, s) implies now.assigned(
            now.tree[n][s],
        ) && fits(now.num_leaves, n, now.tree[n][s]) by {
            let b = now.tree[n][s];
            assert(now.tree[n].contains(b));
            assert(now.holds(b));
            assert(refilled.occupied(n, s));
            if !nodes.contains(n) {
                assert(refilled.tree[n] == st.tree[n]);
                assert(st.occupied(n, s));
            }
        }
    }

    assert forall|b: BlockView| #[trigger] st.holds(b) && b.id != id implies now.holds(b) by {
        assert(refilled.holds(b));
    }
    assert(now.holds(new)) by {
        assert(stash.contains(new));
        assert(refilled.holds(new));
    }
    assert(now.complete()) by {
        assert forall|i: BlockId| #[trigger] now.pos_map.contains_key(i) implies exists|
            b: BlockView,
        | #[trigger] now.holds(b) && b.id == i by {
            if i == id {
                assert(now.holds(new) && new.id == id);
            } else {
                assert(st.pos_map.contains_key(i));
                let b = choose|b: BlockView| #[trigger] st.holds(b) && b.id == i;
                assert(now.holds(b));
            }
        }
    }

    let expected = st.contents().insert(id, data);
    assert forall|i: BlockId| #[trigger] now.contents().contains_key(i)
        <==> expected.contains_key(i) by {}
    assert forall|i: BlockId| #[trigger] now.contents().contains_key(i) implies now.contents()[i]
        == expected[i] by {
        if i == id {
            contents_are_held_data(now, new);
        } else {
            let b = choose|b: BlockView| #[trigger] st.holds(b) && b.id == i;
            assert(st.pos_map.contains_key(i));
            assert(now.holds(b));
            contents_are_held_data(st, b);
            contents_are_held_data(now, b);
        }
    }
    assert(now.contents() =~= expected);
}

} // verus!
