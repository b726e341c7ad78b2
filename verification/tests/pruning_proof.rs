use consensus::model::{GhostdagData, Header, TrustedBlock, ORIGIN};
use consensus::pruning_proof::{
    flatten_proof, sort_headers_by_work, DagTraversal, GhostdagManager, ProofOfWork, PruningProofManager,
};
use consensus::reachability::ReachabilityStore;
use consensus::stores::{
    GhostdagStore, HeadersStore, PastPruningPointsStore, PruningPointInfo, PruningStore, RelationsStore, StoreError,
};

const GENESIS: u64 = 1;

/// The proof-of-work bits of a test header are its nonce.
struct NoncePow;

impl ProofOfWork for NoncePow {
    fn pow_bits(&self, header: &Header) -> u32 {
        header.nonce as u32
    }
}

fn empty_data(selected_parent: u64) -> GhostdagData {
    GhostdagData {
        blue_score: 0,
        blue_work: 0,
        selected_parent,
        mergeset_blues: vec![],
        mergeset_reds: vec![],
        blues_anticone_sizes: vec![],
    }
}

/// Picks the stored parent of most blue work as the selected parent; all
/// other parents are blue.
struct SimpleGhostdag;

impl GhostdagManager for SimpleGhostdag {
    fn ghostdag(&self, _level: usize, store: &GhostdagStore, parents: &Vec<u64>) -> GhostdagData {
        let mut best: Option<(u128, u64, u64)> = None;
        for p in parents.iter() {
            if let Ok(d) = store.get_data(*p) {
                let key = (d.blue_work, *p, d.blue_score);
                if best.map_or(true, |b| (key.0, key.1) > (b.0, b.1)) {
                    best = Some(key);
                }
            }
        }
        match best {
            Some((work, sp, score)) => GhostdagData {
                blue_score: score + parents.len() as u64,
                blue_work: work + 1,
                selected_parent: sp,
                mergeset_blues: parents.iter().copied().filter(|p| *p != sp).collect(),
                mergeset_reds: vec![],
                blues_anticone_sizes: vec![],
            },
            None => empty_data(ORIGIN),
        }
    }

    fn origin_ghostdag_data(&self, _level: usize) -> GhostdagData {
        empty_data(ORIGIN)
    }

    fn genesis_ghostdag_data(&self, _level: usize) -> GhostdagData {
        empty_data(ORIGIN)
    }
}

/// The window of a block is its selected parent, and `extra` where set.
struct ParentWindow {
    extra: Option<u64>,
}

impl DagTraversal for ParentWindow {
    fn block_window(&self, ghostdag_data: &GhostdagData, _window_size: usize) -> Vec<u64> {
        let mut w = vec![ghostdag_data.selected_parent];
        if let Some(e) = self.extra {
            w.push(e);
        }
        w
    }
}

type Manager = PruningProofManager<NoncePow, SimpleGhostdag, ParentWindow>;

fn header(hash: u64, parents: Vec<u64>, blue_work: u128, blue_score: u64) -> Header {
    Header {
        hash,
        version: 1,
        parents_by_level: if parents.is_empty() { vec![] } else { vec![parents] },
        hash_merkle_root: 0,
        accepted_id_merkle_root: 0,
        utxo_commitment: 0,
        timestamp: 0,
        bits: 0,
        nonce: 0,
        daa_score: blue_score,
        blue_work,
        blue_score,
        pruning_point: 0,
    }
}

fn manager(max_level: u8, m: u64, extra_window_block: Option<u64>) -> Manager {
    let mut ghostdag_stores = Vec::new();
    let mut relations_stores = Vec::new();
    for _ in 0..=max_level {
        ghostdag_stores.push(GhostdagStore::new());
        let mut r = RelationsStore::new();
        r.insert(ORIGIN, vec![]).unwrap();
        relations_stores.push(r);
    }
    PruningProofManager::new(
        HeadersStore::new(),
        ReachabilityStore::new(),
        ghostdag_stores,
        relations_stores,
        PruningStore::new(),
        PastPruningPointsStore::new(),
        SimpleGhostdag,
        ParentWindow { extra: extra_window_block },
        NoncePow,
        max_level,
        GENESIS,
        m,
        10,
        3,
    )
}

/// Genesis 1; 2 on 1; 3 and 4 on 2; 6 on 3; 5 on 3 and 4. Level zero lists
/// 5 last, so 5 is the pruning point.
fn dag_headers() -> Vec<Header> {
    vec![
        header(1, vec![], 1, 0),
        header(2, vec![1], 2, 1),
        header(3, vec![2], 3, 2),
        header(4, vec![2], 4, 2),
        header(6, vec![3], 5, 3),
        header(5, vec![3, 4], 6, 4),
    ]
}

fn applied_manager(extra_window_block: Option<u64>) -> Manager {
    let mut m = manager(0, 1, extra_window_block);
    m.apply_proof(vec![dag_headers()], &vec![]);
    let pp = header(5, vec![3, 4], 6, 4);
    m.import_pruning_points(&vec![pp]);
    m
}

fn hashes(v: &Vec<Header>) -> Vec<u64> {
    v.iter().map(|h| h.hash).collect()
}

#[test]
fn import_pruning_points_records_each_point_and_the_last_as_current() {
    let mut m = manager(3, 1, None);
    let mut a = header(10, vec![GENESIS], 5, 1);
    a.nonce = 1;
    let b = header(11, vec![10], 6, 2);
    let mut c = header(12, vec![11], 7, 3);
    c.nonce = 7;
    m.import_pruning_points(&vec![a, b, c]);
    assert_eq!(m.pruning_store.info, Some(PruningPointInfo { pruning_point: 12, candidate: 12, index: 2 }));
    assert_eq!(m.past_pruning_points_store.get(0), Ok(10));
    assert_eq!(m.past_pruning_points_store.get(1), Ok(11));
    assert_eq!(m.past_pruning_points_store.get(2), Ok(12));
    assert_eq!(m.past_pruning_points_store.get(3), Err(StoreError::IndexNotFound(3)));
    assert_eq!(m.headers_store.get_block_level(10), Ok(2));
    assert_eq!(m.headers_store.get_block_level(11), Ok(3));
    assert_eq!(m.headers_store.get_block_level(12), Ok(0));
}

#[test]
fn import_pruning_points_keeps_a_known_header() {
    let mut m = manager(3, 1, None);
    let mut known = header(10, vec![GENESIS], 5, 1);
    known.version = 7;
    m.headers_store.insert(10, known, 1).unwrap();
    m.import_pruning_points(&vec![header(10, vec![GENESIS], 5, 1)]);
    assert_eq!(m.headers_store.get_header(10).unwrap().version, 7);
    assert_eq!(m.headers_store.get_block_level(10), Ok(1));
    assert_eq!(m.pruning_store.pruning_point(), Ok(10));
}

#[test]
fn pruning_point_is_not_set_before_import() {
    let m = manager(0, 1, None);
    assert_eq!(m.pruning_store.pruning_point(), Err(StoreError::ValueNotSet));
}

#[test]
fn apply_proof_fills_reachability_relations_and_ghostdag() {
    let m = applied_manager(None);
    for h in [1u64, 2, 3, 4, 5, 6] {
        assert!(m.reachability_store.has(h));
        assert!(m.headers_store.has(h));
        assert!(m.ghostdag_stores[0].has(h));
        assert!(m.relations_stores[0].has(h));
    }
    assert!(m.ghostdag_stores[0].has(ORIGIN));
    assert!(m.reachability_store.is_dag_ancestor_of(1, 5));
    assert!(m.reachability_store.is_dag_ancestor_of(3, 5));
    assert!(!m.reachability_store.is_dag_ancestor_of(6, 5));
    assert!(!m.reachability_store.is_dag_ancestor_of(3, 4));
    assert_eq!(m.reachability_store.get_selected_parent(5), Ok(4));
    assert_eq!(m.reachability_store.get_selected_parent(1), Ok(ORIGIN));
    assert!(m.reachability_store.is_chain_ancestor_of(4, 5));
    assert!(!m.reachability_store.is_chain_ancestor_of(3, 5));
    assert_eq!(m.relations_stores[0].get_parents(5), Ok(vec![3, 4]));
    assert_eq!(m.relations_stores[0].get_parents(1), Ok(vec![ORIGIN]));
    let mut children_of_3 = m.relations_stores[0].get_children(3).unwrap();
    children_of_3.sort();
    assert_eq!(children_of_3, vec![5, 6]);
    let d5 = m.ghostdag_stores[0].get_data(5).unwrap();
    assert_eq!((d5.blue_score, d5.blue_work, d5.selected_parent), (4, 6, 4));
    let d1 = m.ghostdag_stores[0].get_data(1).unwrap();
    assert_eq!(d1.selected_parent, ORIGIN);
}

#[test]
fn apply_proof_makes_the_pruning_point_the_virtual_parent_and_tip() {
    let m = applied_manager(None);
    assert_eq!(m.virtual_state.as_ref().unwrap().parents, vec![5]);
    assert_eq!(m.body_tips, vec![5]);
    let tip = m.headers_selected_tip.unwrap();
    assert_eq!((tip.hash, tip.blue_work), (5, 6));
    assert_eq!(m.selected_chain, vec![5]);
}

#[test]
fn apply_proof_takes_trusted_ghostdag_data_and_adds_trusted_headers() {
    let mut m = manager(0, 1, None);
    let mut trusted_gd = empty_data(4);
    trusted_gd.blue_score = 40;
    trusted_gd.blue_work = 6;
    let trusted = vec![
        TrustedBlock { header: header(5, vec![3, 4], 6, 4), ghostdag: trusted_gd },
        TrustedBlock { header: header(6, vec![3], 5, 3), ghostdag: empty_data(3) },
    ];
    let mut level_zero = dag_headers();
    level_zero.retain(|h| h.hash != 6);
    m.apply_proof(vec![level_zero], &trusted);
    assert!(m.headers_store.has(6));
    assert_eq!(m.ghostdag_stores[0].get_data(5).unwrap().blue_score, 40);
    assert_eq!(m.ghostdag_stores[0].get_data(6).unwrap().selected_parent, 3);
    assert_eq!(m.ghostdag_stores[0].get_data(4).unwrap().blue_score, 2);
}

#[test]
fn build_proof_of_genesis_is_empty() {
    let m = applied_manager(None);
    assert!(m.build_pruning_point_proof(GENESIS).is_empty());
}

#[test]
fn build_proof_collects_the_future_of_the_root_within_the_past_of_the_tip() {
    let m = applied_manager(None);
    let proof = m.build_pruning_point_proof(5);
    assert_eq!(proof.len(), 1);
    assert_eq!(hashes(&proof[0]), vec![2, 3, 4, 5]);
}

#[test]
fn block_at_depth_walks_down_the_selected_chain() {
    let m = applied_manager(None);
    let g = &m.ghostdag_stores[0];
    assert_eq!(m.block_at_depth(g, 5, 2), 2);
    assert_eq!(m.block_at_depth(g, 5, 0), 4);
    assert_eq!(m.block_at_depth(g, 5, 100), 1);
}

#[test]
fn common_ancestor_is_the_first_chain_block_in_the_past_of_b() {
    let m = applied_manager(None);
    let g = &m.ghostdag_stores[0];
    assert_eq!(m.find_common_ancestor_in_chain_of_a(g, 5, 3), 2);
    assert_eq!(m.find_common_ancestor_in_chain_of_a(g, 5, 4), 4);
    assert_eq!(m.find_common_ancestor_in_chain_of_a(g, 6, 5), 3);
}

#[test]
fn selected_parent_is_the_block_of_most_blue_work() {
    let m = applied_manager(None);
    let g = &m.ghostdag_stores[0];
    assert_eq!(Manager::find_selected_parent(g, &vec![3, 4]), 4);
    assert_eq!(Manager::find_selected_parent(g, &vec![3, 6, 4]), 6);
    assert_eq!(Manager::find_selected_parent(g, &vec![2]), 2);
}

#[test]
fn all_parents_joins_the_levels() {
    let m = manager(2, 1, None);
    let mut h = header(9, vec![], 1, 1);
    h.parents_by_level = vec![vec![5, 6], vec![6, 7]];
    let mut ps = m.all_parents(&h);
    ps.sort();
    assert_eq!(ps, vec![GENESIS, 5, 6, 7]);
}

#[test]
fn proof_is_served_once_per_pruning_point() {
    let mut m = applied_manager(None);
    let first = m.get_pruning_point_proof().unwrap();
    assert_eq!(m.cached_pruning_point_proof_and_anticone.as_ref().unwrap().pruning_point, 5);
    let second = m.get_pruning_point_proof().unwrap();
    assert_eq!(hashes(&first[0]), vec![2, 3, 4, 5]);
    assert_eq!(hashes(&first[0]), hashes(&second[0]));
}

#[test]
fn anticone_of_the_pruning_point_comes_with_its_trusted_data() {
    let mut m = applied_manager(None);
    m.virtual_state.as_mut().unwrap().parents = vec![5, 6];
    let (anticone, daa, gd) = m.get_pruning_point_anticone_and_trusted_data().unwrap();
    assert_eq!(anticone, vec![6]);
    assert_eq!(daa.len(), 1);
    assert_eq!(daa[0].header.hash, 3);
    assert_eq!(daa[0].ghostdag.selected_parent, 2);
    let gd_hashes: Vec<u64> = gd.iter().map(|t| t.hash).collect();
    assert_eq!(gd_hashes, vec![6, 3, 2]);
    assert_eq!(gd[0].ghostdag.blue_work, 5);
}

#[test]
fn anticone_seen_from_the_pruning_point_alone_is_empty() {
    let mut m = applied_manager(None);
    let (anticone, daa, gd) = m.get_pruning_point_anticone_and_trusted_data().unwrap();
    assert!(anticone.is_empty());
    assert!(daa.is_empty());
    assert!(gd.is_empty());
}

#[test]
fn a_window_block_without_header_is_reported() {
    let mut m = applied_manager(Some(999));
    m.virtual_state.as_mut().unwrap().parents = vec![5, 6];
    assert_eq!(
        m.get_pruning_point_anticone_and_trusted_data().map(|r| r.0),
        Err(StoreError::KeyNotFound(999))
    );
    assert!(m.cached_pruning_point_proof_and_anticone.is_none());
    assert_eq!(m.get_pruning_point_proof().map(|p| p.len()), Err(StoreError::KeyNotFound(999)));
}

#[test]
fn flatten_proof_concatenates_levels() {
    let proof = vec![
        vec![header(1, vec![], 1, 0), header(2, vec![1], 2, 1)],
        vec![],
        vec![header(3, vec![2], 3, 2)],
    ];
    assert_eq!(hashes(&flatten_proof(&proof)), vec![1, 2, 3]);
}

#[test]
fn sort_headers_by_work_is_stable_and_ascending() {
    let v = vec![
        header(7, vec![], 5, 0),
        header(8, vec![], 2, 0),
        header(9, vec![], 5, 0),
        header(6, vec![], 1, 0),
    ];
    assert_eq!(hashes(&sort_headers_by_work(&v)), vec![6, 8, 7, 9]);
}

#[test]
fn anticone_is_served_the_same_twice() {
    let mut m = applied_manager(None);
    m.virtual_state.as_mut().unwrap().parents = vec![5, 6];
    let (a1, d1, g1) = m.get_pruning_point_anticone_and_trusted_data().unwrap();
    let (a2, d2, g2) = m.get_pruning_point_anticone_and_trusted_data().unwrap();
    assert_eq!(a1, a2);
    assert_eq!(d1.len(), d2.len());
    assert_eq!(d1[0].header.hash, d2[0].header.hash);
    let h1: Vec<u64> = g1.iter().map(|t| t.hash).collect();
    let h2: Vec<u64> = g2.iter().map(|t| t.hash).collect();
    assert_eq!(h1, h2);
}

#[test]
fn anticone_blocks_are_neither_before_nor_after_the_pruning_point() {
    let mut m = applied_manager(None);
    m.virtual_state.as_mut().unwrap().parents = vec![5, 6];
    let (anticone, _, _) = m.get_pruning_point_anticone_and_trusted_data().unwrap();
    for b in anticone {
        assert_ne!(b, 5);
        assert!(!m.reachability_store.is_dag_ancestor_of(b, 5));
        assert!(!m.reachability_store.is_dag_ancestor_of(5, b));
    }
}

#[test]
fn chain_walks_ignore_blocks_off_the_walked_chain() {
    let mut m = applied_manager(None);
    let mut orphan = empty_data(999);
    orphan.blue_score = 7;
    m.ghostdag_stores[0].insert(50, orphan).unwrap();
    let g = &m.ghostdag_stores[0];
    assert_eq!(m.block_at_depth(g, 5, 2), 2);
    assert_eq!(m.find_common_ancestor_in_chain_of_a(g, 5, 3), 2);
}

#[test]
fn a_cached_proof_is_served_without_reading_the_stores() {
    let mut m = applied_manager(None);
    let first = m.get_pruning_point_proof().unwrap();
    m.virtual_state = None;
    let second = m.get_pruning_point_proof().unwrap();
    assert_eq!(hashes(&first[0]), hashes(&second[0]));
    let (anticone, _, _) = m.get_pruning_point_anticone_and_trusted_data().unwrap();
    assert!(anticone.is_empty());
}
