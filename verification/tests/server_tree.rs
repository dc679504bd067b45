use path_oram::server::{EncBucket, OramServer};
use path_oram::tree::next_power_of_two;

fn bucket(tag: u8) -> EncBucket {
    EncBucket::new(vec![vec![tag], vec![tag, tag]])
}

fn server(num_leaves: usize) -> OramServer {
    let tree = (0..OramServer::num_nodes(num_leaves)).map(|i| bucket(i as u8)).collect();
    OramServer::new(num_leaves, 2, tree)
}

#[test]
fn powers_of_two_are_rounded_up() {
    assert_eq!(next_power_of_two(0), 1);
    assert_eq!(next_power_of_two(1), 1);
    assert_eq!(next_power_of_two(2), 2);
    assert_eq!(next_power_of_two(3), 4);
    assert_eq!(next_power_of_two(64), 64);
    assert_eq!(next_power_of_two(65), 128);
    assert_eq!(next_power_of_two(usize::MAX / 2 + 1), usize::MAX / 2 + 1);
}

#[test]
fn tree_is_numbered_as_a_heap() {
    let s = server(4);
    assert_eq!(OramServer::num_nodes(1), 1);
    assert_eq!(OramServer::num_nodes(4), 7);
    assert_eq!(s.leaf_base(), 3);
    assert_eq!(s.leaf_node_index(2), 5);
    assert_eq!(s.path_nodes(0), vec![0, 1, 3]);
    assert_eq!(s.path_nodes(1), vec![0, 1, 4]);
    assert_eq!(s.path_nodes(2), vec![0, 2, 5]);
    assert_eq!(s.path_nodes(3), vec![0, 2, 6]);
    assert_eq!(server(1).path_nodes(0), vec![0]);
}

#[test]
fn all_paths_are_equally_long() {
    let s = server(16);
    for leaf in 0..16 {
        assert_eq!(s.path_nodes(leaf).len(), 5);
    }
}

#[test]
fn ancestors_are_the_nodes_on_the_path() {
    let s = server(8);
    for leaf in 0..8 {
        let path = s.path_nodes(leaf);
        for node in 0..15 {
            assert_eq!(s.is_ancestor(node, leaf), path.contains(&node));
        }
    }
}

#[test]
fn read_path_copies_the_buckets() {
    let s = server(4);
    let (nodes, buckets) = s.read_path(3);
    assert_eq!(nodes, vec![0, 2, 6]);
    let slots: Vec<Vec<Vec<u8>>> = buckets.into_iter().map(|b| b.slots).collect();
    assert_eq!(
        slots,
        vec![
            vec![vec![0], vec![0, 0]],
            vec![vec![2], vec![2, 2]],
            vec![vec![6], vec![6, 6]],
        ]
    );
}

#[test]
fn written_path_is_read_back() {
    let mut s = server(4);
    let nodes = s.path_nodes(1);
    s.write_path(&nodes, vec![bucket(10), bucket(11), bucket(12)]);
    let (_, buckets) = s.read_path(1);
    let tags: Vec<u8> = buckets.iter().map(|b| b.slots[0][0]).collect();
    assert_eq!(tags, vec![10, 11, 12]);
    let all: Vec<u8> = s.tree.iter().map(|b| b.slots[0][0]).collect();
    assert_eq!(all, vec![10, 11, 2, 3, 12, 5, 6]);
    assert_eq!(s.num_leaves, 4);
    assert_eq!(s.z, 2);
}

#[test]
fn later_bucket_stays_where_a_node_is_named_twice() {
    let mut s = server(2);
    s.write_path(&[1, 2, 1], vec![bucket(20), bucket(21), bucket(22)]);
    let all: Vec<u8> = s.tree.iter().map(|b| b.slots[0][0]).collect();
    assert_eq!(all, vec![0, 22, 21]);
}
