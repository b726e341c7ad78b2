//! In-memory consensus stores: headers, GHOSTDAG data, DAG relations,
//! reachability, pruning point and past pruning points.
use std::collections::HashMap;
use vstd::prelude::*;

use crate::model::{
    compact_of, copy_hashes, BlockLevel, BlueWork, CompactGhostdagData, GhostdagData, GhostdagDataView, BlockHash, Header,
    HeaderView,
};

verus! {

broadcast use vstd::std_specs::hash::group_hash_axioms;

/// Errors of the stores.
#[derive(Clone, Copy, Debug, PartialEq, Eq, Structural)]
pub enum StoreError {
    /// The key is not in the store.
    KeyNotFound(BlockHash),
    /// The key is already in the store and the store does not overwrite.
    KeyAlreadyExists(BlockHash),
    /// No entry at this index.
    IndexNotFound(u64),
    /// A store of a single value holds none yet.
    ValueNotSet,
}

/// A header together with the block level derived from its proof of work.
pub struct HeaderWithBlockLevel {
    pub header: Header,
    pub block_level: BlockLevel,
}

/// Headers by block hash.
pub struct HeadersStore {
    headers: HashMap<BlockHash, HeaderWithBlockLevel>,
}

impl View for HeadersStore {
    type V = Map<BlockHash, (HeaderView, BlockLevel)>;

    closed spec fn view(&self) -> Map<BlockHash, (HeaderView, BlockLevel)> {
        self.headers@.map_values(|e: HeaderWithBlockLevel| (e.header@, e.block_level))
    }
}

impl HeadersStore {
    pub fn new() -> (r: HeadersStore)
        ensures
            r@ == Map::<BlockHash, (HeaderView, BlockLevel)>::empty(),
    {
        let r = HeadersStore { headers: HashMap::new() };
        assert(r@ =~= Map::<BlockHash, (HeaderView, BlockLevel)>::empty());
        r
    }

    pub fn has(&self, hash: BlockHash) -> (r: bool)
        ensures
            r == self@.contains_key(hash),
    {
        self.headers.contains_key(&hash)
    }

    /// Stores a header under `hash`; an existing entry is never overwritten.
    pub fn insert(&mut self, hash: BlockHash, header: Header, block_level: BlockLevel) -> (r: Result<
        (),
        StoreError,
    >)
        ensures
            old(self)@.contains_key(hash) ==> r == Err::<(), StoreError>(
                StoreError::KeyAlreadyExists(hash),
            ) && final(self)@ == old(self)@,
            !old(self)@.contains_key(hash) ==> r is Ok && final(self)@ == old(self)@.insert(
                hash,
                (header@, block_level),
            ),
    {
        if self.headers.contains_key(&hash) {
            return Err(StoreError::KeyAlreadyExists(hash));
        }
        let ghost hv = (header@, block_level);
        self.headers.insert(hash, HeaderWithBlockLevel { header, block_level });
        assert(self@ =~= old(self)@.insert(hash, hv));
        Ok(())
    }

    pub fn get_header(&self, hash: BlockHash) -> (r: Result<Header, StoreError>)
        ensures
            self@.contains_key(hash) ==> r is Ok && r->Ok_0@ == self@[hash].0,
            !self@.contains_key(hash) ==> r == Err::<Header, StoreError>(
                StoreError::KeyNotFound(hash),
            ),
    {
        match self.headers.get(&hash) {
            Some(e) => Ok(e.header.copy()),
            None => Err(StoreError::KeyNotFound(hash)),
        }
    }

    pub fn get_block_level(&self, hash: BlockHash) -> (r: Result<BlockLevel, StoreError>)
        ensures
            self@.contains_key(hash) ==> r == Ok::<BlockLevel, StoreError>(self@[hash].1),
            !self@.contains_key(hash) ==> r == Err::<BlockLevel, StoreError>(
                StoreError::KeyNotFound(hash),
            ),
    {
        match self.headers.get(&hash) {
            Some(e) => Ok(e.block_level),
            None => Err(StoreError::KeyNotFound(hash)),
        }
    }
}

/// GHOSTDAG data by block hash, for one block level.
pub struct GhostdagStore {
    data: HashMap<BlockHash, GhostdagData>,
}

impl View for GhostdagStore {
    type V = Map<BlockHash, GhostdagDataView>;

    closed spec fn view(&self) -> Map<BlockHash, GhostdagDataView> {
        self.data@.map_values(|d: GhostdagData| d@)
    }
}

impl GhostdagStore {
    pub fn new() -> (r: GhostdagStore)
        ensures
            r@ == Map::<BlockHash, GhostdagDataView>::empty(),
    {
        let r = GhostdagStore { data: HashMap::new() };
        assert(r@ =~= Map::<BlockHash, GhostdagDataView>::empty());
        r
    }

    pub fn has(&self, hash: BlockHash) -> (r: bool)
        ensures
            r == self@.contains_key(hash),
    {
        self.data.contains_key(&hash)
    }

    /// Stores the data of `hash`; an existing entry is never overwritten.
    pub fn insert(&mut self, hash: BlockHash, data: GhostdagData) -> (r: Result<(), StoreError>)
        ensures
            old(self)@.contains_key(hash) ==> r == Err::<(), StoreError>(
                StoreError::KeyAlreadyExists(hash),
            ) && final(self)@ == old(self)@,
            !old(self)@.contains_key(hash) ==> r is Ok && final(self)@ == old(self)@.insert(
                hash,
                data@,
            ),
    {
        if self.data.contains_key(&hash) {
            return Err(StoreError::KeyAlreadyExists(hash));
        }
        let ghost dv = data@;
        self.data.insert(hash, data);
        assert(self@ =~= old(self)@.insert(hash, dv));
        Ok(())
    }

    pub fn get_data(&self, hash: BlockHash) -> (r: Result<GhostdagData, StoreError>)
        ensures
            self@.contains_key(hash) ==> r is Ok && r->Ok_0@ == self@[hash],
            !self@.contains_key(hash) ==> r == Err::<GhostdagData, StoreError>(
                StoreError::KeyNotFound(hash),
            ),
    {
        match self.data.get(&hash) {
            Some(d) => Ok(d.copy()),
            None => Err(StoreError::KeyNotFound(hash)),
        }
    }

    pub fn get_compact_data(&self, hash: BlockHash) -> (r: Result<CompactGhostdagData, StoreError>)
        ensures
            self@.contains_key(hash) ==> r == Ok::<CompactGhostdagData, StoreError>(
                compact_of(self@[hash]),
            ),
            !self@.contains_key(hash) ==> r == Err::<CompactGhostdagData, StoreError>(
                StoreError::KeyNotFound(hash),
            ),
    {
        match self.data.get(&hash) {
            Some(d) => Ok(d.to_compact()),
            None => Err(StoreError::KeyNotFound(hash)),
        }
    }

    pub fn get_blue_work(&self, hash: BlockHash) -> (r: Result<BlueWork, StoreError>)
        ensures
            self@.contains_key(hash) ==> r == Ok::<BlueWork, StoreError>(self@[hash].blue_work),
            !self@.contains_key(hash) ==> r == Err::<BlueWork, StoreError>(
                StoreError::KeyNotFound(hash),
            ),
    {
        match self.data.get(&hash) {
            Some(d) => Ok(d.blue_work),
            None => Err(StoreError::KeyNotFound(hash)),
        }
    }
}


/// The parents and children of a block.
pub struct RelationsEntry {
    pub parents: Vec<BlockHash>,
    pub children: Vec<BlockHash>,
}

/// Records `child` as a child of each of `parents`, in order.
pub open spec fn with_child(
    rel: Map<BlockHash, (Seq<BlockHash>, Seq<BlockHash>)>,
    parents: Seq<BlockHash>,
    child: BlockHash,
) -> Map<BlockHash, (Seq<BlockHash>, Seq<BlockHash>)>
    decreases parents.len(),
{
    if parents.len() == 0 {
        rel
    } else {
        let m = with_child(rel, parents.drop_last(), child);
        let p = parents.last();
        m.insert(p, (m[p].0, m[p].1.push(child)))
    }
}

pub proof fn lemma_with_child_dom(
    rel: Map<BlockHash, (Seq<BlockHash>, Seq<BlockHash>)>,
    parents: Seq<BlockHash>,
    child: BlockHash,
)
    requires
        forall|i: int| 0 <= i < parents.len() ==> rel.contains_key(#[trigger] parents[i]),
    ensures
        with_child(rel, parents, child).dom() == rel.dom(),
    decreases parents.len(),
{
    if parents.len() > 0 {
        lemma_with_child_dom(rel, parents.drop_last(), child);
        assert(with_child(rel, parents, child).dom() =~= rel.dom());
    }
}

/// Every child recorded in the relations is itself recorded.
pub open spec fn rel_wf(rel: Map<BlockHash, (Seq<BlockHash>, Seq<BlockHash>)>) -> bool {
    forall|h: BlockHash, c: BlockHash|
        #[trigger] rel.contains_key(h) && #[trigger] rel[h].1.contains(c) ==> rel.contains_key(c)
}

pub proof fn lemma_with_child_wf(
    rel: Map<BlockHash, (Seq<BlockHash>, Seq<BlockHash>)>,
    parents: Seq<BlockHash>,
    child: BlockHash,
)
    requires
        rel_wf(rel),
        rel.contains_key(child),
        forall|i: int| 0 <= i < parents.len() ==> rel.contains_key(#[trigger] parents[i]),
    ensures
        rel_wf(with_child(rel, parents, child)),
    decreases parents.len(),
{
    if parents.len() > 0 {
        let init = parents.drop_last();
        lemma_with_child_wf(rel, init, child);
        lemma_with_child_dom(rel, init, child);
        let m = with_child(rel, init, child);
        let p = parents.last();
        let n = m.insert(p, (m[p].0, m[p].1.push(child)));
        assert forall|h: BlockHash, c: BlockHash|
            #[trigger] n.contains_key(h) && #[trigger] n[h].1.contains(c) implies n.contains_key(c) by {
            assert(rel.contains_key(p));
            assert(m.dom() == rel.dom());
            if h == p {
                if c != child {
                    let k = choose|k: int| 0 <= k < n[h].1.len() && n[h].1[k] == c;
                    assert(m[p].1[k] == c);
                    assert(m[p].1.contains(c));
                    assert(m.contains_key(c));
                } else {
                    assert(rel.contains_key(child));
                }
            } else {
                assert(m.contains_key(h));
                assert(n[h] == m[h]);
                assert(m.contains_key(c));
            }
        }
    }
}

/// The DAG relations of one block level: the parents and children of each
/// block.
pub struct RelationsStore {
    entries: HashMap<BlockHash, RelationsEntry>,
}

impl View for RelationsStore {
    /// For each block, its parents and its children.
    type V = Map<BlockHash, (Seq<BlockHash>, Seq<BlockHash>)>;

    closed spec fn view(&self) -> Map<BlockHash, (Seq<BlockHash>, Seq<BlockHash>)> {
        self.entries@.map_values(|e: RelationsEntry| (e.parents@, e.children@))
    }
}

impl RelationsStore {
    pub fn new() -> (r: RelationsStore)
        ensures
            r@ == Map::<BlockHash, (Seq<BlockHash>, Seq<BlockHash>)>::empty(),
            rel_wf(r@),
    {
        let r = RelationsStore { entries: HashMap::new() };
        assert(r@ =~= Map::<BlockHash, (Seq<BlockHash>, Seq<BlockHash>)>::empty());
        r
    }

    pub fn has(&self, hash: BlockHash) -> (r: bool)
        ensures
            r == self@.contains_key(hash),
    {
        self.entries.contains_key(&hash)
    }

    /// Adds `hash` with the given parents and no children, and records it as a
    /// child of each parent. Fails, changing nothing, when `hash` is already
    /// there or when a parent (other than `hash` itself) is not.
    pub fn insert(&mut self, hash: BlockHash, parents: Vec<BlockHash>) -> (r: Result<(), StoreError>)
        ensures
            old(self)@.contains_key(hash) ==> r == Err::<(), StoreError>(
                StoreError::KeyAlreadyExists(hash),
            ) && final(self)@ == old(self)@,
            rel_wf(old(self)@) ==> rel_wf(final(self)@),
            !old(self)@.contains_key(hash) ==> match r {
                Ok(_) => {
                    &&& forall|i: int|
                        0 <= i < parents@.len() ==> #[trigger] parents@[i] == hash
                            || old(self)@.contains_key(parents@[i])
                    &&& final(self)@ == with_child(
                        old(self)@.insert(hash, (parents@, Seq::empty())),
                        parents@,
                        hash,
                    )
                },
                Err(e) => exists|i: int|
                    0 <= i < parents@.len() && e == StoreError::KeyNotFound(parents@[i]) && parents@[i]
                        != hash && !old(self)@.contains_key(#[trigger] parents@[i]) && (forall|j: int|
                        0 <= j < i ==> #[trigger] parents@[j] == hash || old(self)@.contains_key(
                            parents@[j],
                        )) && final(self)@ == old(self)@,
            },
    {
        if self.entries.contains_key(&hash) {
            return Err(StoreError::KeyAlreadyExists(hash));
        }
        let mut k: usize = 0;
        while k < parents.len()
            invariant
                k <= parents.len(),
                self@ == old(self)@,
                !old(self)@.contains_key(hash),
                forall|j: int| 0 <= j < k ==> #[trigger] parents@[j] == hash || self@.contains_key(
                    parents@[j],
                ),
            decreases parents.len() - k,
        {
            let p = parents[k];
            if p != hash && !self.entries.contains_key(&p) {
                return Err(StoreError::KeyNotFound(p));
            }
            k = k + 1;
        }
        let ghost base = old(self)@.insert(hash, (parents@, Seq::<BlockHash>::empty()));
        let n = parents.len();
        let own = copy_hashes(&parents);
        self.entries.insert(hash, RelationsEntry { parents: own, children: Vec::new() });
        assert(self@ =~= base);
        let mut i: usize = 0;
        while i < n
            invariant
                n == parents@.len(),
                i <= n,
                forall|j: int| 0 <= j < n ==> base.contains_key(#[trigger] parents@[j]),
                self@ == with_child(base, parents@.take(i as int), hash),
            decreases n - i,
        {
            let p = parents[i];
            proof {
                lemma_with_child_dom(base, parents@.take(i as int), hash);
                assert(parents@.take(i + 1).drop_last() =~= parents@.take(i as int));
            }
            let entry = self.entries.remove(&p);
            match entry {
                Some(e) => {
                    let mut children = e.children;
                    children.push(hash);
                    let ghost m = with_child(base, parents@.take(i as int), hash);
                    self.entries.insert(p, RelationsEntry { parents: e.parents, children });
                    assert(self@ =~= m.insert(p, (m[p].0, m[p].1.push(hash))));
                },
                None => {
                    assert(false);
                },
            }
            i = i + 1;
        }
        assert(parents@.take(n as int) =~= parents@);
        proof {
            if rel_wf(old(self)@) {
                assert(rel_wf(base)) by {
                    assert forall|h: BlockHash, c: BlockHash|
                        #[trigger] base.contains_key(h) && #[trigger] base[h].1.contains(c) implies base.contains_key(c) by {
                        if h == hash {
                            assert(base[h].1 =~= Seq::<BlockHash>::empty());
                        }
                    }
                }
                lemma_with_child_wf(base, parents@, hash);
            }
        }
        Ok(())
    }

    pub proof fn lemma_dom_finite(&self)
        ensures
            self@.dom().finite(),
    {
        assert(self@.dom() =~= self.entries@.dom());
    }

    pub fn get_parents(&self, hash: BlockHash) -> (r: Result<Vec<BlockHash>, StoreError>)
        ensures
            self@.contains_key(hash) ==> r is Ok && r->Ok_0@ == self@[hash].0,
            !self@.contains_key(hash) ==> r == Err::<Vec<BlockHash>, StoreError>(
                StoreError::KeyNotFound(hash),
            ),
    {
        match self.entries.get(&hash) {
            Some(e) => Ok(copy_hashes(&e.parents)),
            None => Err(StoreError::KeyNotFound(hash)),
        }
    }

    pub fn get_children(&self, hash: BlockHash) -> (r: Result<Vec<BlockHash>, StoreError>)
        ensures
            self@.contains_key(hash) ==> r is Ok && r->Ok_0@ == self@[hash].1,
            !self@.contains_key(hash) ==> r == Err::<Vec<BlockHash>, StoreError>(
                StoreError::KeyNotFound(hash),
            ),
    {
        match self.entries.get(&hash) {
            Some(e) => Ok(copy_hashes(&e.children)),
            None => Err(StoreError::KeyNotFound(hash)),
        }
    }
}


/// The current pruning point, the candidate for the next one, and the index
/// of the current one among all pruning points.
#[derive(Clone, Copy, Debug, PartialEq, Eq, Structural)]
pub struct PruningPointInfo {
    pub pruning_point: BlockHash,
    pub candidate: BlockHash,
    pub index: u64,
}

/// The pruning point record.
pub struct PruningStore {
    pub info: Option<PruningPointInfo>,
}

impl PruningStore {
    pub fn new() -> (r: PruningStore)
        ensures
            r.info is None,
    {
        PruningStore { info: None }
    }

    pub fn set(&mut self, pruning_point: BlockHash, candidate: BlockHash, index: u64)
        ensures
            final(self).info == Some(PruningPointInfo { pruning_point, candidate, index }),
    {
        self.info = Some(PruningPointInfo { pruning_point, candidate, index });
    }

    pub fn pruning_point(&self) -> (r: Result<BlockHash, StoreError>)
        ensures
            match self.info {
                Some(i) => r == Ok::<BlockHash, StoreError>(i.pruning_point),
                None => r == Err::<BlockHash, StoreError>(StoreError::ValueNotSet),
            },
    {
        match self.info {
            Some(i) => Ok(i.pruning_point),
            None => Err(StoreError::ValueNotSet),
        }
    }
}

/// All past pruning points by index.
pub struct PastPruningPointsStore {
    points: HashMap<u64, BlockHash>,
}

impl View for PastPruningPointsStore {
    type V = Map<u64, BlockHash>;

    closed spec fn view(&self) -> Map<u64, BlockHash> {
        self.points@
    }
}

impl PastPruningPointsStore {
    pub fn new() -> (r: PastPruningPointsStore)
        ensures
            r@ == Map::<u64, BlockHash>::empty(),
    {
        PastPruningPointsStore { points: HashMap::new() }
    }

    /// Records `hash` as the pruning point at `index`, replacing any earlier one.
    pub fn set(&mut self, index: u64, hash: BlockHash)
        ensures
            final(self)@ == old(self)@.insert(index, hash),
    {
        self.points.insert(index, hash);
    }

    pub fn get(&self, index: u64) -> (r: Result<BlockHash, StoreError>)
        ensures
            self@.contains_key(index) ==> r == Ok::<BlockHash, StoreError>(self@[index]),
            !self@.contains_key(index) ==> r == Err::<BlockHash, StoreError>(
                StoreError::IndexNotFound(index),
            ),
    {
        match self.points.get(&index) {
            Some(h) => Ok(*h),
            None => Err(StoreError::IndexNotFound(index)),
        }
    }
}

} // verus!
