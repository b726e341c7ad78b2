use consensus::model::{GhostdagData, Header, ORIGIN};
use consensus::reachability::ReachabilityStore;
use consensus::stores::{GhostdagStore, HeadersStore, RelationsStore};
use consensus::traversal::anticone;
use consensus::trusted_data::{backward_chain_take, collect_trusted_data, first_unstored, sort_blocks};

fn header(hash: u64) -> Header {
    Header {
        hash,
        version: 1,
        parents_by_level: vec![],
        hash_merkle_root: 0,
        accepted_id_merkle_root: 0,
        utxo_commitment: 0,
        timestamp: hash * 10,
        bits: 0,
        nonce: 0,
        daa_score: 0,
        blue_work: 0,
        blue_score: 0,
        pruning_point: 0,
    }
}

fn data(blue_work: u128, selected_parent: u64) -> GhostdagData {
    GhostdagData {
        blue_score: blue_work as u64,
        blue_work,
        selected_parent,
        mergeset_blues: vec![],
        mergeset_reds: vec![],
        blues_anticone_sizes: vec![],
    }
}

/// ORIGIN - 1 - 2 - {3, 4}; 5 on 3; 6 on 4; 7 on 5 and 6; 8 on 4.
/// Each block's selected parent is its first parent.
fn dag() -> (RelationsStore, ReachabilityStore, GhostdagStore, HeadersStore) {
    let blocks: Vec<(u64, Vec<u64>, u128)> = vec![
        (1, vec![ORIGIN], 1),
        (2, vec![1], 2),
        (3, vec![2], 3),
        (4, vec![2], 4),
        (5, vec![3], 5),
        (6, vec![4], 6),
        (7, vec![5, 6], 8),
        (8, vec![4], 7),
    ];
    let mut rel = RelationsStore::new();
    rel.insert(ORIGIN, vec![]).unwrap();
    let mut reach = ReachabilityStore::new();
    let mut g = GhostdagStore::new();
    let mut hs = HeadersStore::new();
    for (h, ps, w) in blocks {
        rel.insert(h, ps.clone()).unwrap();
        reach.add_block(h, ps[0], &ps[1..].to_vec());
        g.insert(h, data(w, ps[0])).unwrap();
        hs.insert(h, header(h), 0).unwrap();
    }
    (rel, reach, g, hs)
}

#[test]
fn anticone_holds_the_blocks_neither_before_nor_after_the_block() {
    let (rel, reach, _, _) = dag();
    let mut a = anticone(&rel, &reach, 5, &vec![7, 8]);
    a.sort();
    assert_eq!(a, vec![4, 6, 8]);
}

#[test]
fn anticone_from_the_block_itself_is_empty() {
    let (rel, reach, _, _) = dag();
    assert!(anticone(&rel, &reach, 5, &vec![5]).is_empty());
    assert!(anticone(&rel, &reach, 2, &vec![7, 8]).is_empty());
}

#[test]
fn anticone_of_a_side_block() {
    let (rel, reach, _, _) = dag();
    let mut a = anticone(&rel, &reach, 8, &vec![7, 8]);
    a.sort();
    assert_eq!(a, vec![3, 5, 6, 7]);
}

#[test]
fn blocks_sort_by_blue_work_then_hash() {
    let (_, _, g, _) = dag();
    assert_eq!(sort_blocks(&g, &vec![8, 3, 6, 4]), vec![3, 4, 6, 8]);
    let mut g2 = GhostdagStore::new();
    g2.insert(20, data(5, ORIGIN)).unwrap();
    g2.insert(10, data(5, ORIGIN)).unwrap();
    g2.insert(30, data(1, ORIGIN)).unwrap();
    assert_eq!(sort_blocks(&g2, &vec![20, 10, 30]), vec![30, 10, 20]);
}

#[test]
fn backward_chain_stops_at_the_count_or_before_origin() {
    let (_, reach, _, _) = dag();
    assert_eq!(backward_chain_take(&reach, 7, 3), vec![7, 5, 3]);
    assert_eq!(backward_chain_take(&reach, 3, 10), vec![3, 2, 1]);
    assert_eq!(backward_chain_take(&reach, 3, 0), Vec::<u64>::new());
    assert_eq!(backward_chain_take(&reach, ORIGIN, 5), Vec::<u64>::new());
}

#[test]
fn first_unstored_finds_a_block_without_data() {
    let (_, _, g, hs) = dag();
    assert_eq!(first_unstored(&hs, &g, &vec![vec![1, 2], vec![], vec![3]]), None);
    assert_eq!(first_unstored(&hs, &g, &vec![vec![1, 2], vec![77, 3], vec![88]]), Some(77));
}

#[test]
fn trusted_data_sends_each_block_once_in_first_order() {
    let (_, reach, g, hs) = dag();
    let anticone = vec![6, 8];
    let windows = vec![vec![4, 2], vec![4, 1, 2]];
    let (daa, gd) = collect_trusted_data(&hs, &g, &reach, &anticone, &windows, 2);
    let daa_hashes: Vec<u64> = daa.iter().map(|t| t.header.hash).collect();
    assert_eq!(daa_hashes, vec![4, 2, 1]);
    assert_eq!(daa[0].header.timestamp, 40);
    assert_eq!(daa[1].ghostdag.blue_work, 2);
    let gd_hashes: Vec<u64> = gd.iter().map(|t| t.hash).collect();
    assert_eq!(gd_hashes, vec![6, 4, 8]);
    assert_eq!(gd[2].ghostdag.selected_parent, 4);
}
