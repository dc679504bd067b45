use path_oram::block::PlainBlock;
use path_oram::client::{OramClient, Op};
use path_oram::replay::{replay, Request};
use path_oram::tree::next_power_of_two;
use rand::rngs::StdRng;
use rand::{Rng, SeedableRng};
use std::collections::HashMap;

/// Everything that a client holds, the slots decrypted: `(node, id, leaf, data)` per block, with
/// no node for the stash.
fn blocks_of(c: &OramClient) -> Vec<(Option<usize>, u64, u32, Vec<u8>)> {
    let mut all = Vec::new();
    for (n, bucket) in c.server.tree.iter().enumerate() {
        assert_eq!(bucket.slots.len(), c.server.z);
        for (s, slot) in bucket.slots.iter().enumerate() {
            assert_eq!(slot.len(), c.crypto.slot_len());
            let b = c.crypto.try_decrypt_slot(slot, n, s).unwrap();
            if !b.is_dummy {
                all.push((Some(n), b.id, b.leaf, b.data));
            }
        }
    }
    for b in c.stash.iter() {
        assert!(!b.is_dummy);
        all.push((None, b.id, b.leaf, b.data.clone()));
    }
    all
}

fn check_invariant(c: &OramClient) {
    let all = blocks_of(c);
    assert_eq!(all.len(), c.pos_map.len());
    for (node, id, leaf, data) in all {
        assert_eq!(c.pos_map[&id], leaf);
        assert!((leaf as usize) < c.num_leaves());
        assert_eq!(data.len(), c.crypto.block_size);
        if let Some(n) = node {
            assert!(c.server.is_ancestor(n, leaf));
        }
    }
}

fn slots_of(c: &OramClient) -> Vec<Vec<Vec<u8>>> {
    c.server.tree.iter().map(|b| b.slots.clone()).collect()
}

#[test]
fn random_reads_and_writes_match_a_mirror() {
    let n_blocks = 64usize;
    let block_size = 32usize;
    let mut oram = OramClient::new(next_power_of_two(n_blocks), 4, block_size, 0xC0FFEE);
    let mut mirror: HashMap<u64, Vec<u8>> =
        (1..=(n_blocks as u64)).map(|i| (i, vec![0u8; block_size])).collect();
    for id in 1..=(n_blocks as u64) {
        assert_eq!(oram.write(id, vec![0u8; block_size]), vec![0u8; block_size]);
    }
    let mut app_rng = StdRng::seed_from_u64(12345);
    for _ in 0..1000 {
        let bid = app_rng.gen_range(1..=(n_blocks as u64));
        if app_rng.gen_bool(0.5) {
            assert_eq!(oram.read(bid), mirror[&bid]);
        } else {
            let mut v = vec![0u8; block_size];
            app_rng.fill(&mut v[..]);
            assert_eq!(oram.write(bid, v.clone()), mirror[&bid]);
            mirror.insert(bid, v);
        }
    }
    assert_eq!(oram.server.tree.len(), 127);
    assert_eq!(oram.crypto.slot_len(), 88);
    check_invariant(&oram);
}

#[test]
fn new_store_holds_dummies_only() {
    let c = OramClient::new(4, 3, 8, 1);
    assert_eq!(c.num_leaves(), 4);
    assert_eq!(c.server.tree.len(), 7);
    assert!(c.stash.is_empty());
    assert!(c.pos_map.is_empty());
    assert!(blocks_of(&c).is_empty());
}

#[test]
fn key_nonces_and_leaves_come_from_the_seed() {
    let seed = 0x1234_5678_9ABC_DEF0u64;
    let mut c = OramClient::new(4, 2, 8, seed);

    let mut key = [0u8; 32];
    StdRng::seed_from_u64(seed ^ 0xA5A5_A5A5_A5A5_A5A5).fill(&mut key);
    assert_eq!(c.crypto.key, key);

    let mut rng = StdRng::seed_from_u64(seed ^ 0x5A5A_5A5A_5A5A_5A5A);
    for bucket in c.server.tree.iter() {
        for slot in bucket.slots.iter() {
            let mut nonce = [0u8; 24];
            rng.fill(&mut nonce);
            assert_eq!(slot[..24], nonce[..]);
        }
    }
    for _ in 0..20 {
        let expected = rng.gen_range(0..4usize) as u32;
        assert_eq!(c.random_leaf(), expected);
    }
}

#[test]
fn same_seed_gives_the_same_store() {
    let mut a = OramClient::new(8, 2, 4, 77);
    let mut b = OramClient::new(8, 2, 4, 77);
    let other = OramClient::new(8, 2, 4, 78);
    assert_eq!(slots_of(&a), slots_of(&b));
    assert_ne!(slots_of(&a), slots_of(&other));
    for id in 0..10u64 {
        a.write(id, vec![id as u8; 4]);
        b.write(id, vec![id as u8; 4]);
    }
    assert_eq!(slots_of(&a), slots_of(&b));
    assert_eq!(a.pos_map, b.pos_map);
}

#[test]
fn leaves_are_below_the_number_of_leaves() {
    let mut c = OramClient::new(4, 1, 1, 5);
    let mut seen = [false; 4];
    for _ in 0..200 {
        seen[c.random_leaf() as usize] = true;
    }
    assert_eq!(seen, [true; 4]);
    let mut one = OramClient::new(1, 1, 1, 5);
    for _ in 0..10 {
        assert_eq!(one.random_leaf(), 0);
    }
}

#[test]
fn written_data_are_read_until_the_next_write() {
    let mut c = OramClient::new(4, 2, 3, 9);
    assert_eq!(c.read(0), vec![0, 0, 0]);
    assert_eq!(c.write(0, vec![1, 2, 3]), vec![0, 0, 0]);
    assert_eq!(c.write(u64::MAX, vec![7, 7, 7]), vec![0, 0, 0]);
    assert_eq!(c.read(0), vec![1, 2, 3]);
    assert_eq!(c.read(0), vec![1, 2, 3]);
    assert_eq!(c.write(0, vec![4, 5, 6]), vec![1, 2, 3]);
    assert_eq!(c.read(u64::MAX), vec![7, 7, 7]);
    assert_eq!(c.read(0), vec![4, 5, 6]);
    check_invariant(&c);
}

#[test]
fn reading_ignores_data() {
    let mut c = OramClient::new(2, 2, 1, 9);
    assert_eq!(c.access(Op::Write, 3, Some(vec![8])), vec![0]);
    assert_eq!(c.access(Op::Read, 3, Some(vec![9])), vec![8]);
    assert_eq!(c.access(Op::Read, 3, None), vec![8]);
}

#[test]
fn invariant_holds_after_every_access() {
    let mut c = OramClient::new(4, 1, 2, 31);
    for i in 0..60u64 {
        let id = (i * 7) % 12;
        if i % 3 == 0 {
            c.read(id);
        } else {
            c.write(id, vec![i as u8, id as u8]);
        }
        check_invariant(&c);
    }
    assert_eq!(blocks_of(&c).len(), 12);
}

#[test]
fn store_works_without_slots_and_with_one_leaf() {
    let mut none = OramClient::new(2, 0, 1, 4);
    for id in 0..5u64 {
        none.write(id, vec![id as u8]);
    }
    assert_eq!(none.stash.len(), 5);
    assert_eq!(none.read(3), vec![3]);
    let mut single = OramClient::new(1, 2, 1, 4);
    for id in 0..5u64 {
        single.write(id, vec![id as u8]);
    }
    assert_eq!(single.stash.len(), 3);
    for id in 0..5u64 {
        assert_eq!(single.read(id), vec![id as u8]);
    }
    let mut empty = OramClient::new(2, 2, 0, 4);
    assert_eq!(empty.write(1, vec![]), Vec::<u8>::new());
    assert_eq!(empty.read(1), Vec::<u8>::new());
}

#[test]
fn access_touches_the_path_of_the_old_leaf_only() {
    let mut c = OramClient::new(8, 2, 2, 6);
    for id in 0..6u64 {
        c.write(id, vec![1, id as u8]);
    }
    let leaf = c.pos_map[&3];
    let before = slots_of(&c);
    let path = c.server.path_nodes(leaf);
    c.read(3);
    let after = slots_of(&c);
    for n in 0..before.len() {
        for s in 0..2 {
            assert_eq!(before[n][s] != after[n][s], path.contains(&n));
        }
    }
}

#[test]
fn slots_of_a_refilled_path_have_different_nonces() {
    let mut c = OramClient::new(8, 2, 2, 6);
    let mut nonces = Vec::new();
    for id in 0..6u64 {
        c.write(id, vec![1, id as u8]);
        let path = c.server.path_nodes(c.pos_map[&id]);
        assert_eq!(path.len(), 4);
    }
    for bucket in c.server.tree.iter() {
        for slot in bucket.slots.iter() {
            nonces.push(slot[..24].to_vec());
        }
    }
    let count = nonces.len();
    nonces.sort();
    nonces.dedup();
    assert_eq!(nonces.len(), count);
}

#[test]
fn reading_and_writing_look_the_same() {
    let make = || {
        let mut c = OramClient::new(8, 2, 2, 15);
        for id in 0..9u64 {
            c.write(id, vec![3, id as u8]);
        }
        c
    };
    let mut reader = make();
    let mut writer = make();
    let before = slots_of(&reader);
    let path = reader.server.path_nodes(reader.pos_map[&4]);
    reader.read(4);
    writer.write(4, vec![200, 201]);
    assert_eq!(reader.pos_map, writer.pos_map);
    assert_eq!(reader.stash.len(), writer.stash.len());
    for (r, w) in reader.stash.iter().zip(writer.stash.iter()) {
        assert_eq!((r.id, r.leaf, r.is_dummy), (w.id, w.leaf, w.is_dummy));
        assert!(r.id == 4 || r.data == w.data);
    }
    let (r, w) = (slots_of(&reader), slots_of(&writer));
    for n in 0..before.len() {
        for s in 0..2 {
            assert_eq!(r[n][s].len(), w[n][s].len());
            assert_eq!(r[n][s][..24], w[n][s][..24]);
            assert_eq!(r[n][s] != before[n][s], path.contains(&n));
            assert_eq!(w[n][s] != before[n][s], path.contains(&n));
        }
    }
    assert_eq!(reader.random_leaf(), writer.random_leaf());
}

#[test]
fn refilling_places_blocks_from_the_leaf_up() {
    let mut c = OramClient::new(4, 1, 1, 2);
    for (id, leaf) in [(1u64, 0u32), (2, 3), (3, 0), (4, 1), (5, 0)] {
        c.stash.push(PlainBlock::new_real(id, leaf, vec![id as u8]));
    }
    c.evict_to_path(0);
    // Node 3 is leaf 0, node 1 its parent, node 0 the root. Block 2 fits into the root alone, which
    // comes last and takes the first block that is left.
    let placed: Vec<(Option<usize>, u64)> =
        blocks_of(&c).into_iter().map(|(n, id, _, _)| (n, id)).collect();
    assert_eq!(
        placed,
        vec![(Some(0), 2), (Some(1), 3), (Some(3), 1), (None, 4), (None, 5)]
    );
    assert!(c.pos_map.is_empty());
}

#[test]
fn refilling_keeps_the_order_of_the_stash() {
    let mut c = OramClient::new(2, 2, 1, 2);
    for id in 1..=6u64 {
        c.stash.push(PlainBlock::new_real(id, (id % 2) as u32, vec![id as u8]));
    }
    c.evict_to_path(1);
    // The leaf's node 2 takes blocks 1 and 3, the root then blocks 2 and 4.
    let placed: Vec<(Option<usize>, u64)> =
        blocks_of(&c).into_iter().map(|(n, id, _, _)| (n, id)).collect();
    assert_eq!(
        placed,
        vec![
            (Some(0), 2),
            (Some(0), 4),
            (Some(2), 1),
            (Some(2), 3),
            (None, 5),
            (None, 6),
        ]
    );
}

#[test]
fn requests_get_the_data_from_before() {
    let replies = replay(
        4,
        2,
        2,
        11,
        vec![
            Request::Read { id: 1 },
            Request::Write { id: 1, data: vec![1, 1] },
            Request::Write { id: 2, data: vec![2, 2] },
            Request::Read { id: 1 },
            Request::Write { id: 1, data: vec![3, 3] },
            Request::Read { id: 2 },
            Request::Read { id: 1 },
            Request::Read { id: 9 },
        ],
    );
    assert_eq!(
        replies,
        vec![
            vec![0, 0],
            vec![0, 0],
            vec![0, 0],
            vec![1, 1],
            vec![1, 1],
            vec![2, 2],
            vec![3, 3],
            vec![0, 0],
        ]
    );
    assert!(replay(1, 1, 1, 0, Vec::new()).is_empty());
}

/// A store with six blocks whose slot 0 of one node was altered.
fn altered_store(node: usize) -> OramClient {
    let mut c = OramClient::new(8, 2, 2, 6);
    for id in 0..6u64 {
        c.write(id, vec![1, id as u8]);
    }
    c.server.tree[node].slots[0][30] ^= 1;
    c
}

#[test]
fn altered_slot_off_the_path_does_not_matter() {
    let whole = altered_store(0);
    let leaf = whole.pos_map[&3];
    let path = whole.server.path_nodes(leaf);
    let off = (0..15).find(|n| !path.contains(n)).unwrap();
    let mut c = altered_store(off);
    assert!(c.check_path(leaf));
    assert_eq!(c.read(3), vec![1, 3]);
    let mut c = altered_store(off);
    assert_eq!(c.try_access(Op::Write, 3, Some(vec![8, 8])), Some(vec![1, 3]));
    assert!(c.check_path(leaf));
    assert_eq!(c.pos_map.len(), 6);
}

#[test]
fn altered_slot_on_the_path_is_noticed_before_the_access() {
    let mut c = altered_store(0);
    let leaf = c.pos_map[&3];
    assert!(!c.check_path(leaf));
    let (slots, pos_map, held) = (slots_of(&c), c.pos_map.clone(), c.stash.len());
    assert_eq!(c.try_access(Op::Read, 3, None), None);
    assert_eq!(c.try_access(Op::Write, 99, Some(vec![0, 0])), None);
    assert_eq!(slots_of(&c), slots);
    assert_eq!(c.pos_map, pos_map);
    assert_eq!(c.stash.len(), held);
    // The generator has moved on by the leaves: one for the known block, two for the new one.
    let mut d = altered_store(0);
    for _ in 0..3 {
        d.random_leaf();
    }
    assert_eq!(c.random_leaf(), d.random_leaf());
    // With the slot mended the block is still there.
    c.server.tree[0].slots[0][30] ^= 1;
    assert_eq!(c.try_access(Op::Read, 3, None), Some(vec![1, 3]));
    check_invariant(&c);
}

#[test]
fn checked_access_serves_like_an_access() {
    let mut a = OramClient::new(4, 2, 1, 21);
    let mut b = OramClient::new(4, 2, 1, 21);
    for i in 0..20u64 {
        let id = i % 5;
        assert_eq!(
            a.try_access(Op::Write, id, Some(vec![i as u8])),
            Some(b.access(Op::Write, id, Some(vec![i as u8])))
        );
    }
    assert_eq!(slots_of(&a), slots_of(&b));
    assert_eq!(a.pos_map, b.pos_map);
}

#[test]
fn refilling_keeps_every_copy() {
    let mut c = OramClient::new(2, 1, 1, 2);
    for leaf in [0u32, 0, 1, 0] {
        c.stash.push(PlainBlock::new_real(7, leaf, vec![5]));
    }
    c.evict_to_path(0);
    let mut leaves: Vec<u32> = blocks_of(&c).into_iter().map(|(_, _, leaf, _)| leaf).collect();
    leaves.sort();
    assert_eq!(leaves, vec![0, 0, 0, 1]);
    assert_eq!(c.stash.len(), 2);
}

#[test]
fn blocks_lie_as_deep_as_there_is_room() {
    let mut c = OramClient::new(4, 2, 1, 2);
    for id in 1..=7u64 {
        c.stash.push(PlainBlock::new_real(id, 0, vec![0]));
    }
    c.evict_to_path(0);
    let count = |n: Option<usize>| blocks_of(&c).iter().filter(|b| b.0 == n).count();
    assert_eq!([count(Some(3)), count(Some(1)), count(Some(0)), count(None)], [2, 2, 2, 1]);
    let mut few = OramClient::new(4, 2, 1, 2);
    few.stash.push(PlainBlock::new_real(1, 0, vec![0]));
    few.evict_to_path(0);
    assert_eq!(blocks_of(&few)[0].0, Some(3));
}
