use consensus::model::Header;
use consensus::pruning_proof::{calc_block_level, ParentsManager};

fn header(hash: u64, parents_by_level: Vec<Vec<u64>>) -> Header {
    Header {
        hash,
        version: 1,
        parents_by_level,
        hash_merkle_root: 0,
        accepted_id_merkle_root: 0,
        utxo_commitment: 0,
        timestamp: 0,
        bits: 0,
        nonce: 0,
        daa_score: 0,
        blue_work: 0,
        blue_score: 0,
        pruning_point: 0,
    }
}

#[test]
fn block_level_is_max_level_minus_pow_bits() {
    assert_eq!(calc_block_level(225, 200), 25);
    assert_eq!(calc_block_level(225, 225), 0);
    assert_eq!(calc_block_level(10, 3), 7);
}

#[test]
fn block_level_is_zero_when_pow_bits_exceed_max_level() {
    assert_eq!(calc_block_level(225, 226), 0);
    assert_eq!(calc_block_level(0, u32::MAX), 0);
}

#[test]
fn parents_at_level_of_listed_level() {
    let pm = ParentsManager { genesis_hash: 1 };
    let h = header(9, vec![vec![5, 6], vec![5]]);
    assert_eq!(pm.parents_at_level(&h, 0), vec![5, 6]);
    assert_eq!(pm.parents_at_level(&h, 1), vec![5]);
}

#[test]
fn parents_above_listed_levels_are_genesis() {
    let pm = ParentsManager { genesis_hash: 1 };
    let h = header(9, vec![vec![5, 6]]);
    assert_eq!(pm.parents_at_level(&h, 3), vec![1]);
}

#[test]
fn genesis_header_has_no_parents() {
    let pm = ParentsManager { genesis_hash: 1 };
    let h = header(1, vec![]);
    assert_eq!(pm.parents_at_level(&h, 0), Vec::<u64>::new());
}
