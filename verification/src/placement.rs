//! Which blocks go into which bucket when a path is refilled.
//!
//! The path is refilled from the leaf to the root. Each bucket takes the first blocks of the stash
//! that may lie in its node, as many as it has slots; the rest stays in the stash.

use crate::block::BlockView;
use crate::tree::{leaf_ancestors_by_halving, leaf_node, on_path, path_to};
use vstd::arithmetic::power2::pow2;
use vstd::prelude::*;

verus! {

/// Whether a block may lie in `node`: the node is on the path to the block's leaf.
pub open spec fn fits(num_leaves: int, node: int, b: BlockView) -> bool {
    on_path(node, leaf_node(num_leaves, b.leaf as int))
}

/// The first `z` blocks of the stash that fit into `node`.
pub open spec fn chosen(stash: Seq<BlockView>, num_leaves: int, node: int, z: nat) -> Seq<BlockView>
    decreases stash.len(),
{
    if stash.len() == 0 {
        Seq::empty()
    } else {
        let before = chosen(stash.drop_last(), num_leaves, node, z);
        if before.len() < z && fits(num_leaves, node, stash.last()) {
            before.push(stash.last())
        } else {
            before
        }
    }
}

/// The stash without the blocks that were chosen for `node`.
pub open spec fn rest(stash: Seq<BlockView>, num_leaves: int, node: int, z: nat) -> Seq<BlockView>
    decreases stash.len(),
{
    if stash.len() == 0 {
        Seq::empty()
    } else {
        let before = rest(stash.drop_last(), num_leaves, node, z);
        if chosen(stash.drop_last(), num_leaves, node, z).len() < z && fits(
            num_leaves,
            node,
            stash.last(),
        ) {
            before
        } else {
            before.push(stash.last())
        }
    }
}

/// The stash after the buckets of `nodes[k]` and below were refilled.
pub open spec fn kept(
    stash: Seq<BlockView>,
    num_leaves: int,
    nodes: Seq<int>,
    k: int,
    z: nat,
) -> Seq<BlockView>
    decreases nodes.len() - k,
{
    if k >= nodes.len() {
        stash
    } else {
        rest(kept(stash, num_leaves, nodes, k + 1, z), num_leaves, nodes[k], z)
    }
}

/// The blocks that go into the bucket of `nodes[k]`.
pub open spec fn placed(
    stash: Seq<BlockView>,
    num_leaves: int,
    nodes: Seq<int>,
    k: int,
    z: nat,
) -> Seq<BlockView> {
    chosen(kept(stash, num_leaves, nodes, k + 1, z), num_leaves, nodes[k], z)
}

/// The blocks that go into the buckets of `nodes[k]` and below, bucket by bucket.
pub open spec fn all_placed(
    stash: Seq<BlockView>,
    num_leaves: int,
    nodes: Seq<int>,
    k: int,
    z: nat,
) -> Seq<BlockView>
    decreases nodes.len() - k,
{
    if k >= nodes.len() {
        Seq::empty()
    } else {
        placed(stash, num_leaves, nodes, k, z) + all_placed(stash, num_leaves, nodes, k + 1, z)
    }
}

/// No id occurs twice.
pub open spec fn distinct_ids(s: Seq<BlockView>) -> bool {
    forall|i: int, j: int| 0 <= i < j < s.len() ==> (#[trigger] s[i]).id != (#[trigger] s[j]).id
}

/// No id occurs in both.
pub open spec fn disjoint_ids(s: Seq<BlockView>, t: Seq<BlockView>) -> bool {
    forall|i: int, j: int|
        0 <= i < s.len() && 0 <= j < t.len() ==> (#[trigger] s[i]).id != (#[trigger] t[j]).id
}

/// Every element of `s` is one of `t`.
pub open spec fn all_in(s: Seq<BlockView>, t: Seq<BlockView>) -> bool {
    forall|b: BlockView| #[trigger] s.contains(b) ==> t.contains(b)
}

pub proof fn lemma_push_contains<A>(s: Seq<A>, x: A)
    ensures
        forall|b: A| #[trigger] s.push(x).contains(b) <==> s.contains(b) || b == x,
{
    assert forall|b: A| #[trigger] s.push(x).contains(b) <==> s.contains(b) || b == x by {
        let t = s.push(x);
        if s.contains(b) {
            let i = choose|i: int| 0 <= i < s.len() && s[i] == b;
            assert(t[i] == b);
        }
        if b == x {
            assert(t[s.len() as int] == b);
        }
        if t.contains(b) && b != x {
            let i = choose|i: int| 0 <= i < t.len() && t[i] == b;
            assert(s[i] == b);
        }
    }
}

pub proof fn lemma_disjoint_within(
    s: Seq<BlockView>,
    s_all: Seq<BlockView>,
    t: Seq<BlockView>,
    t_all: Seq<BlockView>,
)
    requires
        disjoint_ids(s_all, t_all),
        all_in(s, s_all),
        all_in(t, t_all),
    ensures
        disjoint_ids(s, t),
{
    assert forall|i: int, j: int| 0 <= i < s.len() && 0 <= j < t.len() implies (#[trigger] s[i]).id
        != (#[trigger] t[j]).id by {
        assert(s.contains(s[i]));
        assert(t.contains(t[j]));
        let i2 = choose|i2: int| 0 <= i2 < s_all.len() && s_all[i2] == s[i];
        let j2 = choose|j2: int| 0 <= j2 < t_all.len() && t_all[j2] == t[j];
        assert(s_all[i2].id != t_all[j2].id);
    }
}

/// What is chosen for a node and what is left over are together the stash. At most `z` blocks are
/// chosen, all of them fit, and a block that fits is left over only where `z` were chosen.
pub proof fn choice_splits_stash(stash: Seq<BlockView>, num_leaves: int, node: int, z: nat)
    ensures
        chosen(stash, num_leaves, node, z).len() <= z,
        chosen(stash, num_leaves, node, z).len() + rest(stash, num_leaves, node, z).len()
            == stash.len(),
        forall|b: BlockView| #[trigger]
            stash.contains(b) <==> chosen(stash, num_leaves, node, z).contains(b) || rest(
                stash,
                num_leaves,
                node,
                z,
            ).contains(b),
        forall|b: BlockView| #[trigger]
            chosen(stash, num_leaves, node, z).contains(b) ==> fits(num_leaves, node, b),
        forall|b: BlockView| #[trigger]
            rest(stash, num_leaves, node, z).contains(b) && fits(num_leaves, node, b) ==> chosen(
                stash,
                num_leaves,
                node,
                z,
            ).len() == z,
    decreases stash.len(),
{
    if stash.len() > 0 {
        let init = stash.drop_last();
        choice_splits_stash(init, num_leaves, node, z);
        lemma_push_contains(init, stash.last());
        assert(init.push(stash.last()) =~= stash);
        lemma_push_contains(chosen(init, num_leaves, node, z), stash.last());
        lemma_push_contains(rest(init, num_leaves, node, z), stash.last());
    }
}

/// A block may lie in a node if and only if the node is on the path to the block's leaf: halving
/// the number of the leaf, counted over the whole tree from 1, leads to the node.
pub proof fn fits_on_the_way_to_the_leaf(num_leaves: int, node: int, b: BlockView)
    requires
        num_leaves >= 1,
        node >= 0,
    ensures
        fits(num_leaves, node, b) <==> path_to(num_leaves - 1 + b.leaf).contains(node),
        fits(num_leaves, node, b) <==> exists|k: nat|
            node + 1 == (num_leaves + b.leaf) / (#[trigger] pow2(k) as int),
{
    leaf_ancestors_by_halving(node, num_leaves, b.leaf as int);
}

proof fn lemma_choice_cuts_stash(
    stash: Seq<BlockView>,
    num_leaves: int,
    node: int,
    z: nat,
    may_lie: spec_fn(BlockView) -> bool,
)
    requires
        forall|b: BlockView| #[trigger] may_lie(b) == fits(num_leaves, node, b),
    ensures
        exists|cut: int|
            0 <= cut <= stash.len() && chosen(stash, num_leaves, node, z) == (
            #[trigger] stash.take(cut)).filter(may_lie) && rest(stash, num_leaves, node, z)
                == stash.take(cut).filter(|b: BlockView| !may_lie(b)) + stash.skip(cut) && (cut
                < stash.len() ==> chosen(stash, num_leaves, node, z).len() == z),
    decreases stash.len(),
{
    let may_not_lie = |b: BlockView| !may_lie(b);
    reveal(Seq::filter);
    if stash.len() == 0 {
        assert(stash.take(0) =~= Seq::empty());
        assert(stash.skip(0) =~= Seq::empty());
        assert(stash.take(0).filter(may_not_lie) + stash.skip(0) =~= Seq::empty());
    } else {
        let init = stash.drop_last();
        let last = stash.last();
        lemma_choice_cuts_stash(init, num_leaves, node, z, may_lie);
        choice_splits_stash(init, num_leaves, node, z);
        let c = choose|cut: int|
            0 <= cut <= init.len() && chosen(init, num_leaves, node, z) == (#[trigger] init.take(
                cut,
            )).filter(may_lie) && rest(init, num_leaves, node, z) == init.take(cut).filter(
                |b: BlockView| !may_lie(b),
            ) + init.skip(cut) && (cut < init.len() ==> chosen(init, num_leaves, node, z).len()
                == z);
        if chosen(init, num_leaves, node, z).len() < z {
            assert(init.take(c) =~= init);
            assert(init.skip(c) =~= Seq::empty());
            let cut = stash.len() as int;
            assert(stash.take(cut) =~= stash);
            assert(stash.skip(cut) =~= Seq::empty());
            assert(rest(stash, num_leaves, node, z) =~= stash.take(cut).filter(may_not_lie)
                + stash.skip(cut));
        } else {
            assert(stash.take(c) =~= init.take(c));
            assert(stash.skip(c) =~= init.skip(c).push(last));
            assert(rest(stash, num_leaves, node, z) =~= stash.take(c).filter(may_not_lie)
                + stash.skip(c));
        }
    }
}

/// Each step of a refill goes through the stash as the buckets below left it, from the front, takes
/// the blocks whose leaf lies below the node until the bucket is full, and leaves all others in
/// their order. It starts with the whole stash at the leaf.
pub proof fn refill_takes_first_blocks_from_leaf_to_root(
    stash: Seq<BlockView>,
    num_leaves: int,
    nodes: Seq<int>,
    k: int,
    z: nat,
)
    requires
        num_leaves >= 1,
        0 <= k < nodes.len(),
        nodes[k] >= 0,
    ensures
        kept(stash, num_leaves, nodes, nodes.len() as int, z) == stash,
        placed(stash, num_leaves, nodes, k, z).len() <= z,
        ({
            let left = kept(stash, num_leaves, nodes, k + 1, z);
            let may_lie = |b: BlockView|
                exists|j: nat|
                    nodes[k] + 1 == (num_leaves + b.leaf) / (#[trigger] pow2(j) as int);
            exists|cut: int|
                0 <= cut <= left.len() && placed(stash, num_leaves, nodes, k, z) == (
                #[trigger] left.take(cut)).filter(may_lie) && kept(stash, num_leaves, nodes, k, z)
                    == left.take(cut).filter(|b: BlockView| !may_lie(b)) + left.skip(cut) && (cut
                    < left.len() ==> placed(stash, num_leaves, nodes, k, z).len() == z)
        }),
{
    let left = kept(stash, num_leaves, nodes, k + 1, z);
    let may_lie = |b: BlockView|
        exists|j: nat| nodes[k] + 1 == (num_leaves + b.leaf) / (#[trigger] pow2(j) as int);
    assert forall|b: BlockView| #[trigger] may_lie(b) == fits(num_leaves, nodes[k], b) by {
        fits_on_the_way_to_the_leaf(num_leaves, nodes[k], b);
    }
    lemma_choice_cuts_stash(left, num_leaves, nodes[k], z, may_lie);
    choice_splits_stash(left, num_leaves, nodes[k], z);
}

/// Where no id occurs twice in the stash, none does in what is chosen and left over.
pub proof fn choice_keeps_ids_distinct(stash: Seq<BlockView>, num_leaves: int, node: int, z: nat)
    requires
        distinct_ids(stash),
    ensures
        distinct_ids(chosen(stash, num_leaves, node, z)),
        distinct_ids(rest(stash, num_leaves, node, z)),
        disjoint_ids(chosen(stash, num_leaves, node, z), rest(stash, num_leaves, node, z)),
    decreases stash.len(),
{
    if stash.len() > 0 {
        let init = stash.drop_last();
        let last = seq![stash.last()];
        let c = chosen(init, num_leaves, node, z);
        let r = rest(init, num_leaves, node, z);
        choice_keeps_ids_distinct(init, num_leaves, node, z);
        choice_splits_stash(init, num_leaves, node, z);
        assert(disjoint_ids(init, last)) by {
            assert forall|i: int, j: int| 0 <= i < init.len() && 0 <= j < last.len() implies (
            #[trigger] init[i]).id != (#[trigger] last[j]).id by {
                assert(init[i] == stash[i]);
                assert(last[j] == stash[stash.len() - 1]);
            }
        }
        lemma_disjoint_within(c, init, last, last);
        lemma_disjoint_within(r, init, last, last);
        assert(last[0] == stash.last());
    }
}

/// What is kept at the end was kept all along.
pub proof fn lemma_kept_grows(
    stash: Seq<BlockView>,
    num_leaves: int,
    nodes: Seq<int>,
    j: int,
    k: int,
    z: nat,
)
    requires
        0 <= j <= k <= nodes.len(),
    ensures
        kept(stash, num_leaves, nodes, j, z).len() <= kept(stash, num_leaves, nodes, k, z).len(),
        forall|b: BlockView| #[trigger]
            kept(stash, num_leaves, nodes, j, z).contains(b) ==> kept(
                stash,
                num_leaves,
                nodes,
                k,
                z,
            ).contains(b),
    decreases k - j,
{
    if j < k {
        choice_splits_stash(kept(stash, num_leaves, nodes, j + 1, z), num_leaves, nodes[j], z);
        lemma_kept_grows(stash, num_leaves, nodes, j + 1, k, z);
        assert forall|b: BlockView| #[trigger]
            kept(stash, num_leaves, nodes, j, z).contains(b) implies kept(
            stash,
            num_leaves,
            nodes,
            k,
            z,
        ).contains(b) by {
            assert(kept(stash, num_leaves, nodes, j + 1, z).contains(b));
        }
    }
}

/// What is chosen for a node and what is left over are together the stash, copy for copy.
pub proof fn choice_keeps_every_copy(stash: Seq<BlockView>, num_leaves: int, node: int, z: nat)
    ensures
        chosen(stash, num_leaves, node, z).to_multiset().add(
            rest(stash, num_leaves, node, z).to_multiset(),
        ) == stash.to_multiset(),
    decreases stash.len(),
{
    broadcast use vstd::seq_lib::group_to_multiset_ensures;

    if stash.len() > 0 {
        let init = stash.drop_last();
        choice_keeps_every_copy(init, num_leaves, node, z);
        assert(init.push(stash.last()) =~= stash);
    }
}

/// Refilling the buckets of `nodes[k]` and below keeps every copy of every block: what is left in
/// the stash and what went into the buckets are together what was in the stash before, also where
/// blocks or ids occur more than once.
pub proof fn refill_keeps_every_copy(
    stash: Seq<BlockView>,
    num_leaves: int,
    nodes: Seq<int>,
    k: int,
    z: nat,
)
    requires
        0 <= k <= nodes.len(),
    ensures
        kept(stash, num_leaves, nodes, k, z).to_multiset().add(
            all_placed(stash, num_leaves, nodes, k, z).to_multiset(),
        ) == stash.to_multiset(),
    decreases nodes.len() - k,
{
    broadcast use vstd::seq_lib::group_to_multiset_ensures;

    if k < nodes.len() {
        refill_keeps_every_copy(stash, num_leaves, nodes, k + 1, z);
        choice_keeps_every_copy(kept(stash, num_leaves, nodes, k + 1, z), num_leaves, nodes[k], z);
        vstd::seq_lib::lemma_multiset_commutative(
            placed(stash, num_leaves, nodes, k, z),
            all_placed(stash, num_leaves, nodes, k + 1, z),
        );
    }
}

/// Refilling the buckets of `nodes[k]` and below loses no block and doubles none: where no
/// id occurs twice, each block of the stash is afterwards in the stash or in exactly one of the
/// buckets.
pub proof fn refill_splits_stash(
    stash: Seq<BlockView>,
    num_leaves: int,
    nodes: Seq<int>,
    k: int,
    z: nat,
)
    requires
        0 <= k <= nodes.len(),
        distinct_ids(stash),
    ensures
        forall|b: BlockView| #[trigger]
            stash.contains(b) <==> kept(stash, num_leaves, nodes, k, z).contains(b) || exists|j: int|
                k <= j < nodes.len() && #[trigger] placed(
                    stash,
                    num_leaves,
                    nodes,
                    j,
                    z,
                ).contains(b),
        distinct_ids(kept(stash, num_leaves, nodes, k, z)),
        forall|j: int|
            k <= j < nodes.len() ==> distinct_ids(
                #[trigger] placed(stash, num_leaves, nodes, j, z),
            ),
        forall|j: int|
            k <= j < nodes.len() ==> disjoint_ids(
                #[trigger] placed(stash, num_leaves, nodes, j, z),
                kept(stash, num_leaves, nodes, k, z),
            ),
        forall|i: int, j: int|
            k <= i < nodes.len() && k <= j < nodes.len() && i != j ==> disjoint_ids(
                #[trigger] placed(stash, num_leaves, nodes, i, z),
                #[trigger] placed(stash, num_leaves, nodes, j, z),
            ),
    decreases nodes.len() - k,
{
    if k < nodes.len() {
        let above = kept(stash, num_leaves, nodes, k + 1, z);
        let here = placed(stash, num_leaves, nodes, k, z);
        let left = kept(stash, num_leaves, nodes, k, z);
        refill_splits_stash(stash, num_leaves, nodes, k + 1, z);
        choice_splits_stash(above, num_leaves, nodes[k], z);
        choice_keeps_ids_distinct(above, num_leaves, nodes[k], z);
        assert forall|b: BlockView| #[trigger] stash.contains(b) <==> left.contains(b) || exists|
            j: int,
        |
            k <= j < nodes.len() && #[trigger] placed(stash, num_leaves, nodes, j, z).contains(
                b,
            ) by {
            if left.contains(b) || here.contains(b) {
                assert(above.contains(b));
            }
            if above.contains(b) && !left.contains(b) {
                assert(placed(stash, num_leaves, nodes, k, z).contains(b));
            }
        }
        assert(all_in(here, above));
        assert(all_in(left, above));
        assert forall|j: int| k <= j < nodes.len() implies disjoint_ids(
            #[trigger] placed(stash, num_leaves, nodes, j, z),
            left,
        ) by {
            if j > k {
                let p = placed(stash, num_leaves, nodes, j, z);
                lemma_disjoint_within(p, p, left, above);
            }
        }
        assert forall|i: int, j: int|
            k <= i < nodes.len() && k <= j < nodes.len() && i != j implies disjoint_ids(
            #[trigger] placed(stash, num_leaves, nodes, i, z),
            #[trigger] placed(stash, num_leaves, nodes, j, z),
        ) by {
            let p = placed(stash, num_leaves, nodes, i, z);
            let q = placed(stash, num_leaves, nodes, j, z);
            if i == k {
                lemma_disjoint_within(q, q, here, above);
            } else if j == k {
                lemma_disjoint_within(p, p, here, above);
            }
        }
    }
}

} // verus!
