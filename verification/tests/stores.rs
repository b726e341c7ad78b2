use consensus::model::{GhostdagData, Header, ORIGIN};
use consensus::reachability::ReachabilityStore;
use consensus::stores::{GhostdagStore, HeadersStore, PastPruningPointsStore, PruningStore, RelationsStore, StoreError};

fn header(hash: u64) -> Header {
    Header {
        hash,
        version: 1,
        parents_by_level: vec![],
        hash_merkle_root: 0,
        accepted_id_merkle_root: 0,
        utxo_commitment: 0,
        timestamp: 0,
        bits: 0,
        nonce: 0,
        daa_score: 0,
        blue_work: 0,
        blue_score: 0,
        pruning_point: 0,
    }
}

fn data(blue_score: u64, blue_work: u128, selected_parent: u64) -> GhostdagData {
    GhostdagData {
        blue_score,
        blue_work,
        selected_parent,
        mergeset_blues: vec![selected_parent],
        mergeset_reds: vec![],
        blues_anticone_sizes: vec![(selected_parent, 0)],
    }
}

#[test]
fn headers_store_reads_back_what_was_inserted() {
    let mut s = HeadersStore::new();
    let mut h = header(7);
    h.timestamp = 1234;
    assert_eq!(s.insert(7, h, 2), Ok(()));
    assert!(s.has(7));
    assert_eq!(s.get_header(7).unwrap().timestamp, 1234);
    assert_eq!(s.get_block_level(7), Ok(2));
}

#[test]
fn headers_store_refuses_a_second_insert() {
    let mut s = HeadersStore::new();
    s.insert(7, header(7), 2).unwrap();
    assert_eq!(s.insert(7, header(7), 5), Err(StoreError::KeyAlreadyExists(7)));
    assert_eq!(s.get_block_level(7), Ok(2));
}

#[test]
fn headers_store_reports_a_missing_key() {
    let s = HeadersStore::new();
    assert!(!s.has(3));
    assert_eq!(s.get_header(3).map(|h| h.hash), Err(StoreError::KeyNotFound(3)));
    assert_eq!(s.get_block_level(3), Err(StoreError::KeyNotFound(3)));
}

#[test]
fn ghostdag_store_reads_back_data_and_its_compact_form() {
    let mut s = GhostdagStore::new();
    assert_eq!(s.insert(5, data(3, 30, 4)), Ok(()));
    let d = s.get_data(5).unwrap();
    assert_eq!((d.blue_score, d.blue_work, d.selected_parent), (3, 30, 4));
    assert_eq!(d.mergeset_blues, vec![4]);
    assert_eq!(d.blues_anticone_sizes, vec![(4, 0)]);
    let c = s.get_compact_data(5).unwrap();
    assert_eq!((c.blue_score, c.blue_work, c.selected_parent), (3, 30, 4));
    assert_eq!(s.get_blue_work(5), Ok(30));
    assert_eq!(s.insert(5, data(9, 90, 4)), Err(StoreError::KeyAlreadyExists(5)));
    assert_eq!(s.get_blue_work(5), Ok(30));
    assert_eq!(s.get_blue_work(6), Err(StoreError::KeyNotFound(6)));
    assert_eq!(s.get_compact_data(6), Err(StoreError::KeyNotFound(6)));
}

#[test]
fn relations_store_records_children_of_parents() {
    let mut r = RelationsStore::new();
    r.insert(ORIGIN, vec![]).unwrap();
    r.insert(1, vec![ORIGIN]).unwrap();
    r.insert(2, vec![1]).unwrap();
    r.insert(3, vec![1, 2]).unwrap();
    assert_eq!(r.get_parents(3), Ok(vec![1, 2]));
    assert_eq!(r.get_children(1), Ok(vec![2, 3]));
    assert_eq!(r.get_children(2), Ok(vec![3]));
    assert_eq!(r.get_children(3), Ok(vec![]));
    assert_eq!(r.get_children(ORIGIN), Ok(vec![1]));
}

#[test]
fn relations_store_refuses_an_unknown_parent_and_changes_nothing() {
    let mut r = RelationsStore::new();
    r.insert(1, vec![]).unwrap();
    assert_eq!(r.insert(2, vec![1, 9]), Err(StoreError::KeyNotFound(9)));
    assert!(!r.has(2));
    assert_eq!(r.get_children(1), Ok(vec![]));
    assert_eq!(r.insert(1, vec![]), Err(StoreError::KeyAlreadyExists(1)));
    assert_eq!(r.get_parents(9), Err(StoreError::KeyNotFound(9)));
}

#[test]
fn pruning_store_holds_the_last_set_point() {
    let mut p = PruningStore::new();
    assert_eq!(p.pruning_point(), Err(StoreError::ValueNotSet));
    p.set(4, 5, 1);
    p.set(8, 9, 2);
    assert_eq!(p.pruning_point(), Ok(8));
    assert_eq!(p.info.unwrap().candidate, 9);
    assert_eq!(p.info.unwrap().index, 2);
}

#[test]
fn past_pruning_points_are_replaced_by_index() {
    let mut p = PastPruningPointsStore::new();
    p.set(0, 10);
    p.set(0, 11);
    assert_eq!(p.get(0), Ok(11));
    assert_eq!(p.get(1), Err(StoreError::IndexNotFound(1)));
}

#[test]
fn reachability_past_is_that_of_the_selected_parent_and_the_mergeset() {
    let mut r = ReachabilityStore::new();
    r.add_block(1, ORIGIN, &vec![]);
    r.add_block(2, 1, &vec![]);
    r.add_block(3, 1, &vec![]);
    r.add_block(4, 2, &vec![3]);
    assert!(r.is_dag_ancestor_of(3, 4));
    assert!(r.is_dag_ancestor_of(1, 4));
    assert!(r.is_dag_ancestor_of(4, 4));
    assert!(r.is_dag_ancestor_of(ORIGIN, 4));
    assert!(!r.is_dag_ancestor_of(4, 3));
    assert!(!r.is_dag_ancestor_of(2, 3));
    assert!(r.is_chain_ancestor_of(2, 4));
    assert!(!r.is_chain_ancestor_of(3, 4));
    assert!(r.is_dag_ancestor_of_any(3, &vec![2, 4]));
    assert!(!r.is_dag_ancestor_of_any(4, &vec![2, 3]));
    assert!(!r.is_dag_ancestor_of_any(4, &vec![]));
    assert_eq!(r.get_selected_parent(4), Ok(2));
    assert_eq!(r.get_selected_parent(9), Err(StoreError::KeyNotFound(9)));
    assert!(r.has(ORIGIN));
    assert!(!r.has(9));
}
