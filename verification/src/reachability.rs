//! Reachability: which blocks are in the past of which, and which lie on a
//! block's selected-parent chain.
use std::collections::HashMap;
use vstd::prelude::*;

use crate::model::{contains_hash, copy_hashes, lemma_push_to_set, BlockHash, ORIGIN};
use crate::stores::StoreError;

verus! {

broadcast use vstd::std_specs::hash::group_hash_axioms;

/// What the store knows of one block.
pub struct ReachabilityView {
    /// The parent of the block in the selected-parent tree.
    pub selected_parent: BlockHash,
    /// The block and every block in its past.
    pub ancestors: Set<BlockHash>,
    /// The block and every block on its selected-parent chain.
    pub chain: Set<BlockHash>,
}

/// The union of the ancestor sets of `blocks`.
pub open spec fn union_ancestors(
    m: Map<BlockHash, ReachabilityView>,
    blocks: Seq<BlockHash>,
) -> Set<BlockHash>
    decreases blocks.len(),
{
    if blocks.len() == 0 {
        Set::empty()
    } else {
        union_ancestors(m, blocks.drop_last()).union(m[blocks.last()].ancestors)
    }
}

/// The invariant of the reachability store: `ORIGIN` is the root, every
/// block is its own ancestor, ancestry is transitive, and a block's chain is
/// its selected parent's chain with the block added.
pub open spec fn reach_wf(m: Map<BlockHash, ReachabilityView>) -> bool {
    &&& m.contains_key(ORIGIN)
    &&& m[ORIGIN].ancestors == Set::<BlockHash>::empty().insert(ORIGIN)
    &&& m[ORIGIN].chain == Set::<BlockHash>::empty().insert(ORIGIN)
    &&& forall|h: BlockHash|
        #[trigger] m.contains_key(h) ==> {
            &&& m[h].ancestors.finite()
            &&& m[h].ancestors.contains(h)
            &&& m[h].chain.contains(h)
            &&& m[h].chain.subset_of(m[h].ancestors)
        }
    &&& forall|h: BlockHash, x: BlockHash|
        m.contains_key(h) && #[trigger] m[h].ancestors.contains(x) ==> m.contains_key(x)
            && m[x].ancestors.subset_of(m[h].ancestors)
    &&& forall|h: BlockHash, x: BlockHash|
        m.contains_key(h) && #[trigger] m[h].chain.contains(x) ==> m[x].chain.subset_of(
            m[h].chain,
        )
    &&& forall|h: BlockHash|
        #[trigger] m.contains_key(h) && h != ORIGIN ==> {
            &&& m.contains_key(m[h].selected_parent)
            &&& m[h].chain == m[m[h].selected_parent].chain.insert(h)
            &&& !m[m[h].selected_parent].ancestors.contains(h)
        }
}

/// The view of a block added with the given selected parent and mergeset.
pub open spec fn added_view(
    m: Map<BlockHash, ReachabilityView>,
    hash: BlockHash,
    selected_parent: BlockHash,
    mergeset: Seq<BlockHash>,
) -> ReachabilityView {
    ReachabilityView {
        selected_parent,
        ancestors: m[selected_parent].ancestors.union(union_ancestors(m, mergeset)).insert(hash),
        chain: m[selected_parent].chain.insert(hash),
    }
}

pub proof fn lemma_union_ancestors(m: Map<BlockHash, ReachabilityView>, blocks: Seq<BlockHash>)
    requires
        reach_wf(m),
        forall|i: int| 0 <= i < blocks.len() ==> m.contains_key(#[trigger] blocks[i]),
    ensures
        union_ancestors(m, blocks).finite(),
        forall|x: BlockHash|
            #[trigger] union_ancestors(m, blocks).contains(x) <==> exists|i: int|
                0 <= i < blocks.len() && #[trigger] m[blocks[i]].ancestors.contains(x),
    decreases blocks.len(),
{
    if blocks.len() > 0 {
        let init = blocks.drop_last();
        lemma_union_ancestors(m, init);
        assert forall|x: BlockHash|
            #[trigger] union_ancestors(m, blocks).contains(x) <==> exists|i: int|
                0 <= i < blocks.len() && #[trigger] m[blocks[i]].ancestors.contains(x) by {
            if union_ancestors(m, blocks).contains(x) {
                if union_ancestors(m, init).contains(x) {
                    let i = choose|i: int| 0 <= i < init.len() && #[trigger] m[init[i]].ancestors.contains(x);
                    assert(blocks[i] == init[i]);
                } else {
                    assert(m[blocks[blocks.len() - 1]].ancestors.contains(x));
                }
            }
            if exists|i: int| 0 <= i < blocks.len() && #[trigger] m[blocks[i]].ancestors.contains(x) {
                let i = choose|i: int| 0 <= i < blocks.len() && #[trigger] m[blocks[i]].ancestors.contains(x);
                if i < blocks.len() - 1 {
                    assert(init[i] == blocks[i]);
                }
            }
        }
        assert(m.contains_key(blocks[blocks.len() - 1]));
    }
}

pub proof fn lemma_add_block_wf(
    m: Map<BlockHash, ReachabilityView>,
    hash: BlockHash,
    selected_parent: BlockHash,
    mergeset: Seq<BlockHash>,
)
    requires
        reach_wf(m),
        !m.contains_key(hash),
        m.contains_key(selected_parent),
        forall|i: int| 0 <= i < mergeset.len() ==> m.contains_key(#[trigger] mergeset[i]),
    ensures
        reach_wf(m.insert(hash, added_view(m, hash, selected_parent, mergeset))),
{
    let v = added_view(m, hash, selected_parent, mergeset);
    let n = m.insert(hash, v);
    lemma_union_ancestors(m, mergeset);
    assert(hash != ORIGIN);
    assert forall|x: BlockHash| #[trigger] v.ancestors.contains(x) && x != hash implies m.contains_key(x)
        && m[x].ancestors.subset_of(v.ancestors) by {
        if m[selected_parent].ancestors.contains(x) {
        } else {
            let i = choose|i: int| 0 <= i < mergeset.len() && #[trigger] m[mergeset[i]].ancestors.contains(x);
            assert(m.contains_key(mergeset[i]));
            assert forall|y: BlockHash| m[x].ancestors.contains(y) implies v.ancestors.contains(y) by {
                assert(m[mergeset[i]].ancestors.contains(y));
            }
        }
    }
    assert forall|h: BlockHash| #[trigger] m.contains_key(h) implies !m[h].ancestors.contains(hash) by {
    }
    assert forall|h: BlockHash, x: BlockHash|
        n.contains_key(h) && #[trigger] n[h].ancestors.contains(x) implies n.contains_key(x)
            && n[x].ancestors.subset_of(n[h].ancestors) by {
        if h == hash {
            if x != hash {
                assert(m.contains_key(x));
                assert(m[x].ancestors.subset_of(v.ancestors));
            }
        } else {
            assert(m[h].ancestors.contains(x));
            assert(x != hash);
        }
    }
    assert forall|h: BlockHash, x: BlockHash|
        n.contains_key(h) && #[trigger] n[h].chain.contains(x) implies n[x].chain.subset_of(
            n[h].chain,
        ) by {
        if h == hash {
            if x != hash {
                assert(m[selected_parent].chain.contains(x));
                assert(m[selected_parent].chain.subset_of(m[selected_parent].ancestors));
                assert(x != hash);
            }
        } else {
            assert(m[h].chain.contains(x));
            assert(m[h].chain.subset_of(m[h].ancestors));
            assert(x != hash);
        }
    }
    assert(v.ancestors.finite());
    assert(n[ORIGIN] == m[ORIGIN]);
}

/// What the store keeps of one block.
pub struct ReachabilityEntry {
    pub selected_parent: BlockHash,
    pub ancestors: Vec<BlockHash>,
    pub chain: Vec<BlockHash>,
}

/// Reachability of the blocks added so far.
pub struct ReachabilityStore {
    entries: HashMap<BlockHash, ReachabilityEntry>,
}

impl View for ReachabilityStore {
    type V = Map<BlockHash, ReachabilityView>;

    closed spec fn view(&self) -> Map<BlockHash, ReachabilityView> {
        self.entries@.map_values(
            |e: ReachabilityEntry|
                ReachabilityView {
                    selected_parent: e.selected_parent,
                    ancestors: e.ancestors@.to_set(),
                    chain: e.chain@.to_set(),
                },
        )
    }
}

impl ReachabilityStore {
    /// A store that knows `ORIGIN` only.
    pub fn new() -> (r: ReachabilityStore)
        ensures
            reach_wf(r@),
            r@.dom() == Set::<BlockHash>::empty().insert(ORIGIN),
    {
        let mut entries: HashMap<BlockHash, ReachabilityEntry> = HashMap::new();
        let mut a: Vec<BlockHash> = Vec::new();
        a.push(ORIGIN);
        let mut c: Vec<BlockHash> = Vec::new();
        c.push(ORIGIN);
        proof {
            assert(a@ =~= seq![ORIGIN]);
            assert(a@.to_set() =~= Set::<BlockHash>::empty().insert(ORIGIN)) by {
                assert(a@[0] == ORIGIN);
            }
            assert(c@.to_set() =~= Set::<BlockHash>::empty().insert(ORIGIN)) by {
                assert(c@[0] == ORIGIN);
            }
        }
        entries.insert(ORIGIN, ReachabilityEntry { selected_parent: ORIGIN, ancestors: a, chain: c });
        let r = ReachabilityStore { entries };
        assert(r@.dom() =~= Set::<BlockHash>::empty().insert(ORIGIN));
        r
    }

    pub fn has(&self, hash: BlockHash) -> (r: bool)
        ensures
            r == self@.contains_key(hash),
    {
        self.entries.contains_key(&hash)
    }

    /// Adds a block with its selected parent and (part of) its mergeset: the
    /// block's past becomes the past of these blocks, and its chain the chain
    /// of its selected parent.
    pub fn add_block(
        &mut self,
        hash: BlockHash,
        selected_parent: BlockHash,
        mergeset: &Vec<BlockHash>,
    )
        requires
            reach_wf(old(self)@),
            !old(self)@.contains_key(hash),
            old(self)@.contains_key(selected_parent),
            forall|i: int| 0 <= i < mergeset@.len() ==> old(self)@.contains_key(#[trigger] mergeset@[i]),
        ensures
            final(self)@ == old(self)@.insert(
                hash,
                added_view(old(self)@, hash, selected_parent, mergeset@),
            ),
            reach_wf(final(self)@),
    {
        let ghost m = self@;
        let ghost target = added_view(m, hash, selected_parent, mergeset@);
        let (mut ancestors, mut chain) = match self.entries.get(&selected_parent) {
            Some(e) => (copy_hashes(&e.ancestors), copy_hashes(&e.chain)),
            None => {
                assert(false);
                (Vec::new(), Vec::new())
            },
        };
        let ghost c0 = chain@;
        assert(c0.to_set() == m[selected_parent].chain);
        let mut i: usize = 0;
        while i < mergeset.len()
            invariant
                self@ == m,
                chain@ == c0,
                reach_wf(m),
                i <= mergeset@.len(),
                forall|k: int| 0 <= k < mergeset@.len() ==> m.contains_key(#[trigger] mergeset@[k]),
                ancestors@.to_set() == m[selected_parent].ancestors.union(
                    union_ancestors(m, mergeset@.take(i as int)),
                ),
            decreases mergeset.len() - i,
        {
            let b = mergeset[i];
            proof {
                assert(mergeset@.take(i + 1).drop_last() =~= mergeset@.take(i as int));
                assert(mergeset@.take(i + 1).last() == b);
            }
            let other = match self.entries.get(&b) {
                Some(e) => copy_hashes(&e.ancestors),
                None => {
                    assert(m.contains_key(b));
                    Vec::new()
                },
            };
            let ghost before = ancestors@.to_set();
            let mut j: usize = 0;
            while j < other.len()
                invariant
                    j <= other@.len(),
                    ancestors@.to_set() == before.union(other@.take(j as int).to_set()),
                decreases other.len() - j,
            {
                let x = other[j];
                let ghost prev = ancestors@;
                if !contains_hash(&ancestors, x) {
                    ancestors.push(x);
                }
                proof {
                    assert(other@.take(j + 1) =~= other@.take(j as int).push(x));
                    lemma_push_to_set(other@.take(j as int), x);
                    if !prev.contains(x) {
                        lemma_push_to_set(prev, x);
                    } else {
                        assert(prev.to_set().insert(x) =~= prev.to_set());
                    }
                    assert(ancestors@.to_set() =~= before.union(other@.take(j + 1).to_set()));
                }
                j = j + 1;
            }
            proof {
                assert(other@.take(other@.len() as int) =~= other@);
                assert(ancestors@.to_set() =~= m[selected_parent].ancestors.union(
                    union_ancestors(m, mergeset@.take(i + 1)),
                ));
            }
            i = i + 1;
        }
        proof {
            assert(mergeset@.take(mergeset@.len() as int) =~= mergeset@);
            lemma_union_ancestors(m, mergeset@);
        }
        let ghost prev = ancestors@;
        ancestors.push(hash);
        chain.push(hash);
        proof {
            lemma_push_to_set(prev, hash);
            assert(ancestors@.to_set() =~= target.ancestors);
            lemma_push_to_set(c0, hash);
            assert(chain@.to_set() =~= target.chain);
            lemma_add_block_wf(m, hash, selected_parent, mergeset@);
        }
        self.entries.insert(hash, ReachabilityEntry { selected_parent, ancestors, chain });
        assert(self@ =~= m.insert(hash, target));
    }

    /// Whether `a` is `b` or in the past of `b`.
    pub fn is_dag_ancestor_of(&self, a: BlockHash, b: BlockHash) -> (r: bool)
        requires
            self@.contains_key(b),
        ensures
            r == self@[b].ancestors.contains(a),
    {
        match self.entries.get(&b) {
            Some(e) => contains_hash(&e.ancestors, a),
            None => false,
        }
    }

    /// Whether `a` is `b` or on the selected-parent chain of `b`.
    pub fn is_chain_ancestor_of(&self, a: BlockHash, b: BlockHash) -> (r: bool)
        requires
            self@.contains_key(b),
        ensures
            r == self@[b].chain.contains(a),
    {
        match self.entries.get(&b) {
            Some(e) => contains_hash(&e.chain, a),
            None => false,
        }
    }

    /// Whether `a` is a DAG ancestor of any of `blocks`.
    pub fn is_dag_ancestor_of_any(&self, a: BlockHash, blocks: &Vec<BlockHash>) -> (r: bool)
        requires
            forall|i: int| 0 <= i < blocks@.len() ==> self@.contains_key(#[trigger] blocks@[i]),
        ensures
            r == exists|i: int|
                0 <= i < blocks@.len() && #[trigger] self@[blocks@[i]].ancestors.contains(a),
    {
        let mut i: usize = 0;
        while i < blocks.len()
            invariant
                i <= blocks@.len(),
                forall|k: int| 0 <= k < blocks@.len() ==> self@.contains_key(#[trigger] blocks@[k]),
                forall|k: int| 0 <= k < i ==> !#[trigger] self@[blocks@[k]].ancestors.contains(a),
            decreases blocks.len() - i,
        {
            if self.is_dag_ancestor_of(a, blocks[i]) {
                return true;
            }
            i = i + 1;
        }
        false
    }

    pub fn get_selected_parent(&self, hash: BlockHash) -> (r: Result<BlockHash, StoreError>)
        ensures
            self@.contains_key(hash) ==> r == Ok::<BlockHash, StoreError>(self@[hash].selected_parent),
            !self@.contains_key(hash) ==> r == Err::<BlockHash, StoreError>(
                StoreError::KeyNotFound(hash),
            ),
    {
        match self.entries.get(&hash) {
            Some(e) => Ok(e.selected_parent),
            None => Err(StoreError::KeyNotFound(hash)),
        }
    }
}

} // verus!
