//! Building, applying and serving pruning point proofs.
use vstd::prelude::*;

use crate::model::{
    compact_of, contains_hash, copy_hashes, copy_headers, headers_view, lemma_push_to_set, proof_view,
    sort_blocks_ascending, sortable_le, sortable_lt, strictly_sorted, BlockHash, BlockLevel, BlueWork,
    GhostdagData, GhostdagDataView, Header, HeaderView, KType, PruningPointProof, SortableBlock,
    TrustedBlock, TrustedGhostdagData, TrustedHeader, ORIGIN,
};
use crate::reachability::{lemma_union_ancestors, reach_wf, union_ancestors, ReachabilityStore};
use crate::stores::{
    lemma_with_child_dom, rel_wf, with_child, GhostdagStore, HeadersStore, PastPruningPointsStore,
    PruningStore, RelationsStore,
};

verus! {

/// The proof-of-work evaluation of a header: the number of significant bits
/// of its proof-of-work value.
pub trait ProofOfWork {
    fn pow_bits(&self, header: &Header) -> u32;
}

/// The GHOSTDAG computations of each block level.
pub trait GhostdagManager {
    /// The GHOSTDAG data of a new block with the given parents at `level`.
    fn ghostdag(&self, level: usize, store: &GhostdagStore, parents: &Vec<BlockHash>) -> GhostdagData;

    /// The GHOSTDAG data of `ORIGIN` at `level`.
    fn origin_ghostdag_data(&self, level: usize) -> GhostdagData;

    /// The GHOSTDAG data of the genesis block at `level`.
    fn genesis_ghostdag_data(&self, level: usize) -> GhostdagData;
}

/// The difficulty-adjustment window of a block.
pub trait DagTraversal {
    fn block_window(&self, ghostdag_data: &GhostdagData, window_size: usize) -> Vec<BlockHash>;
}

/// The level of a block whose proof of work has `pow_bits` significant bits.
pub open spec fn spec_block_level(max_block_level: BlockLevel, pow_bits: u32) -> BlockLevel {
    if (max_block_level as int) < (pow_bits as int) {
        0
    } else {
        (max_block_level - pow_bits) as BlockLevel
    }
}

/// The level of a block whose proof of work has `pow_bits` significant bits:
/// `max_block_level - pow_bits`, or 0 where that is negative.
pub fn calc_block_level(max_block_level: BlockLevel, pow_bits: u32) -> (r: BlockLevel)
    ensures
        r == spec_block_level(max_block_level, pow_bits),
        r <= max_block_level,
{
    let signed_block_level: i64 = max_block_level as i64 - pow_bits as i64;
    if signed_block_level < 0 {
        0
    } else {
        signed_block_level as BlockLevel
    }
}

/// The parents of a header at a given level: none for the genesis header (which
/// has no parent levels), the parents listed for that level where the header
/// lists it, and the genesis block above the levels the header lists.
pub open spec fn spec_parents_at_level(
    header: HeaderView,
    level: int,
    genesis_hash: BlockHash,
) -> Seq<BlockHash> {
    if header.parents_by_level.len() == 0 {
        Seq::empty()
    } else if level < header.parents_by_level.len() {
        header.parents_by_level[level]
    } else {
        seq![genesis_hash]
    }
}

/// Reads the parents of headers by level.
pub struct ParentsManager {
    pub genesis_hash: BlockHash,
}

impl ParentsManager {
    pub fn parents_at_level(&self, header: &Header, level: BlockLevel) -> (r: Vec<BlockHash>)
        ensures
            r@ == spec_parents_at_level(header@, level as int, self.genesis_hash),
    {
        if header.parents_by_level.len() == 0 {
            Vec::new()
        } else if (level as usize) < header.parents_by_level.len() {
            copy_hashes(&header.parents_by_level[level as usize])
        } else {
            let mut v: Vec<BlockHash> = Vec::new();
            v.push(self.genesis_hash);
            assert(v@ =~= seq![self.genesis_hash]);
            v
        }
    }
}

/// The selected parent of `h` is a stored block (not `ORIGIN`) with a lower
/// blue score than `h`.
pub open spec fn steps_down(g: Map<BlockHash, GhostdagDataView>, h: BlockHash) -> bool {
    &&& g.contains_key(h)
    &&& g[h].selected_parent != ORIGIN
    &&& g.contains_key(g[h].selected_parent)
    &&& g[g[h].selected_parent].blue_score < g[h].blue_score
}

/// The selected chain of `h` in `g` is well formed: `h` is stored, and
/// either its selected parent is `ORIGIN`, or that parent is stored with a
/// lower blue score and its own selected chain is well formed.
pub open spec fn chain_ok(g: Map<BlockHash, GhostdagDataView>, h: BlockHash) -> bool
    decreases g[h].blue_score,
{
    if !g.contains_key(h) {
        false
    } else if g[h].selected_parent == ORIGIN {
        true
    } else if steps_down(g, h) {
        chain_ok(g, g[h].selected_parent)
    } else {
        false
    }
}

/// Walks down the selected chain from `current` while the block's blue score
/// is within `depth` of `high_score`, stopping at the block whose selected
/// parent is `ORIGIN`.
pub open spec fn walk_to_depth(
    g: Map<BlockHash, GhostdagDataView>,
    high_score: int,
    depth: int,
    current: BlockHash,
) -> BlockHash
    decreases g[current].blue_score,
{
    if steps_down(g, current) && g[current].blue_score + depth >= high_score {
        walk_to_depth(g, high_score, depth, g[current].selected_parent)
    } else {
        current
    }
}

/// The first strict selected-chain ancestor of `current` that is a DAG
/// ancestor of a block with past `target_past`; `ORIGIN` where the chain
/// reaches `ORIGIN` first.
pub open spec fn walk_to_common_ancestor(
    g: Map<BlockHash, GhostdagDataView>,
    target_past: Set<BlockHash>,
    current: BlockHash,
) -> BlockHash
    decreases g[current].blue_score,
{
    let sp = g[current].selected_parent;
    if steps_down(g, current) && !target_past.contains(sp) {
        walk_to_common_ancestor(g, target_past, sp)
    } else {
        sp
    }
}

/// `to` is `from` or a block of the selected chain below `from` in `g`.
pub open spec fn chain_reaches(g: Map<BlockHash, GhostdagDataView>, from: BlockHash, to: BlockHash) -> bool
    decreases g[from].blue_score,
{
    from == to || (steps_down(g, from) && chain_reaches(g, g[from].selected_parent, to))
}

proof fn lemma_walk_reached(g: Map<BlockHash, GhostdagDataView>, high_score: int, depth: int, current: BlockHash)
    ensures
        chain_reaches(g, current, walk_to_depth(g, high_score, depth, current)),
    decreases g[current].blue_score,
{
    if steps_down(g, current) && g[current].blue_score + depth >= high_score {
        lemma_walk_reached(g, high_score, depth, g[current].selected_parent);
    }
}

/// Walking to a larger depth ends at the same block or further down the
/// selected chain.
pub proof fn deeper_walk_goes_further(
    g: Map<BlockHash, GhostdagDataView>,
    high_score: int,
    depth: int,
    deeper: int,
    current: BlockHash,
)
    requires
        depth <= deeper,
    ensures
        chain_reaches(
            g,
            walk_to_depth(g, high_score, depth, current),
            walk_to_depth(g, high_score, deeper, current),
        ),
    decreases g[current].blue_score,
{
    if steps_down(g, current) {
        let sp = g[current].selected_parent;
        if g[current].blue_score + depth >= high_score {
            deeper_walk_goes_further(g, high_score, depth, deeper, sp);
        } else if g[current].blue_score + deeper >= high_score {
            lemma_walk_reached(g, high_score, deeper, sp);
        }
    }
}

/// The walk from a block with a well-formed selected chain ends at a stored
/// block, no higher in blue score, whose selected chain is well formed too.
pub proof fn lemma_walk_to_depth_stored(
    g: Map<BlockHash, GhostdagDataView>,
    high_score: int,
    depth: int,
    current: BlockHash,
)
    requires
        chain_ok(g, current),
    ensures
        g.contains_key(walk_to_depth(g, high_score, depth, current)),
        g[walk_to_depth(g, high_score, depth, current)].blue_score <= g[current].blue_score,
        chain_ok(g, walk_to_depth(g, high_score, depth, current)),
    decreases g[current].blue_score,
{
    if steps_down(g, current) && g[current].blue_score + depth >= high_score {
        lemma_walk_to_depth_stored(g, high_score, depth, g[current].selected_parent);
    }
}

/// The past pruning points after recording `hashes` at indices
/// `0..hashes.len()`.
pub open spec fn with_past_points(m: Map<u64, BlockHash>, hashes: Seq<BlockHash>) -> Map<
    u64,
    BlockHash,
>
    decreases hashes.len(),
{
    if hashes.len() == 0 {
        m
    } else {
        with_past_points(m, hashes.drop_last()).insert(
            (hashes.len() - 1) as u64,
            hashes.last(),
        )
    }
}

/// The headers store `new` is `old` with the first header of each hash in
/// `headers` that `old` lacks added, at a level no higher than `max_level`.
pub open spec fn imports_headers(
    old: Map<BlockHash, (HeaderView, BlockLevel)>,
    new: Map<BlockHash, (HeaderView, BlockLevel)>,
    headers: Seq<HeaderView>,
    max_level: BlockLevel,
) -> bool {
    &&& forall|k: BlockHash| #[trigger]
        new.contains_key(k) <==> old.contains_key(k) || exists|i: int|
            0 <= i < headers.len() && #[trigger] headers[i].hash == k
    &&& forall|k: BlockHash| #[trigger] old.contains_key(k) ==> new[k] == old[k]
    &&& forall|k: BlockHash|
        #[trigger] new.contains_key(k) && !old.contains_key(k) ==> exists|i: int|
            0 <= i < headers.len() && #[trigger] headers[i].hash == k && new[k].0 == headers[i]
                && new[k].1 <= max_level && forall|j: int| 0 <= j < i ==> headers[j].hash != k
}

/// The headers of all levels of a proof, level by level.
pub open spec fn concat_levels(p: Seq<Seq<HeaderView>>) -> Seq<HeaderView>
    decreases p.len(),
{
    if p.len() == 0 {
        Seq::empty()
    } else {
        concat_levels(p.drop_last()) + p.last()
    }
}

/// Some header of `s` has hash `h`.
pub open spec fn in_headers(s: Seq<HeaderView>, h: BlockHash) -> bool {
    exists|i: int| 0 <= i < s.len() && #[trigger] s[i].hash == h
}

/// The first header of `s` with hash `h`.
pub open spec fn first_header(s: Seq<HeaderView>, h: BlockHash) -> HeaderView
    decreases s.len(),
{
    if s.len() == 0 {
        arbitrary()
    } else if in_headers(s.drop_last(), h) {
        first_header(s.drop_last(), h)
    } else {
        s.last()
    }
}

pub proof fn lemma_first_header_push(s: Seq<HeaderView>, x: HeaderView, h: BlockHash)
    ensures
        in_headers(s, h) ==> first_header(s.push(x), h) == first_header(s, h),
        !in_headers(s, h) && x.hash == h ==> first_header(s.push(x), h) == x,
        in_headers(s.push(x), h) <==> in_headers(s, h) || x.hash == h,
{
    let t = s.push(x);
    assert(t.drop_last() =~= s);
    if in_headers(t, h) && !in_headers(s, h) {
        let i = choose|i: int| 0 <= i < t.len() && #[trigger] t[i].hash == h;
        if i < s.len() {
            assert(s[i].hash == h);
        }
    }
    if in_headers(s, h) {
        let i = choose|i: int| 0 <= i < s.len() && #[trigger] s[i].hash == h;
        assert(t[i].hash == h);
    }
    if x.hash == h {
        assert(t[s.len() as int].hash == h);
    }
}

/// The parents of a header over all levels up to `max_level`.
pub open spec fn all_parents(header: HeaderView, max_level: int, genesis_hash: BlockHash) -> Set<
    BlockHash,
> {
    Set::new(
        |p: BlockHash|
            exists|l: int|
                0 <= l <= max_level && #[trigger] spec_parents_at_level(
                    header,
                    l,
                    genesis_hash,
                ).contains(p),
    )
}

/// The parents of the proof block `b` that are proof blocks themselves.
pub open spec fn dag_parents(
    s: Seq<HeaderView>,
    b: BlockHash,
    max_level: int,
    genesis_hash: BlockHash,
) -> Set<BlockHash> {
    all_parents(first_header(s, b), max_level, genesis_hash).filter(|p: BlockHash| in_headers(s, p))
}

/// The proof block `h` with its blue work.
pub open spec fn sortable_in(s: Seq<HeaderView>, h: BlockHash) -> SortableBlock {
    SortableBlock { hash: h, blue_work: first_header(s, h).blue_work }
}

/// The union of the pasts of `blocks`.
pub open spec fn union_over(
    m: Map<BlockHash, crate::reachability::ReachabilityView>,
    blocks: Set<BlockHash>,
) -> Set<BlockHash> {
    Set::new(|x: BlockHash| exists|p: BlockHash| blocks.contains(p) && #[trigger] m[p].ancestors.contains(x))
}

/// Each proof block orders after each of its parents in the proof.
pub open spec fn proof_parents_precede(
    s: Seq<HeaderView>,
    max_level: int,
    genesis_hash: BlockHash,
) -> bool {
    forall|b: BlockHash, p: BlockHash|
        in_headers(s, b) && #[trigger] dag_parents(s, b, max_level, genesis_hash).contains(p)
            ==> sortable_lt(sortable_in(s, p), #[trigger] sortable_in(s, b))
}

/// The reachability that a proof yields for its block `b`: its selected
/// parent is its largest parent in the proof (`ORIGIN` where it has none),
/// its past is the past of these parents, and its chain the chain of its
/// selected parent.
pub open spec fn proof_block_reachability(
    m: Map<BlockHash, crate::reachability::ReachabilityView>,
    s: Seq<HeaderView>,
    b: BlockHash,
    max_level: int,
    genesis_hash: BlockHash,
) -> bool {
    let sp = m[b].selected_parent;
    let dp = dag_parents(s, b, max_level, genesis_hash);
    &&& (dp == Set::<BlockHash>::empty() && sp == ORIGIN) || (dp.contains(sp) && forall|p: BlockHash|
        #[trigger] dp.contains(p) ==> sortable_le(sortable_in(s, p), sortable_in(s, sp)))
    &&& m[b].ancestors == m[sp].ancestors.union(union_over(m, dp)).insert(b)
    &&& m[b].chain == m[sp].chain.insert(b)
}

/// Where a proof block got the reachability the proof yields, each of its
/// parents in the proof is in its past.
pub proof fn proof_parents_in_past(
    m: Map<BlockHash, crate::reachability::ReachabilityView>,
    s: Seq<HeaderView>,
    b: BlockHash,
    p: BlockHash,
    max_level: int,
    genesis_hash: BlockHash,
)
    requires
        reach_wf(m),
        m.contains_key(p),
        proof_block_reachability(m, s, b, max_level, genesis_hash),
        dag_parents(s, b, max_level, genesis_hash).contains(p),
    ensures
        m[b].ancestors.contains(p),
{
    assert(m[p].ancestors.contains(p));
    assert(union_over(m, dag_parents(s, b, max_level, genesis_hash)).contains(p));
}

/// All headers of a proof, level by level.
pub fn flatten_proof(proof: &PruningPointProof) -> (r: Vec<Header>)
    ensures
        headers_view(r@) == concat_levels(proof_view(proof@)),
{
    let mut r: Vec<Header> = Vec::new();
    let mut l: usize = 0;
    while l < proof.len()
        invariant
            l <= proof@.len(),
            headers_view(r@) == concat_levels(proof_view(proof@).take(l as int)),
        decreases proof@.len() - l,
    {
        let ghost start = headers_view(r@);
        let mut i: usize = 0;
        while i < proof[l].len()
            invariant
                l < proof@.len(),
                i <= proof@[l as int]@.len(),
                headers_view(r@) == start + headers_view(proof@[l as int]@).take(i as int),
            decreases proof@[l as int]@.len() - i,
        {
            let ghost prev = r@;
            r.push(proof[l][i].copy());
            proof {
                assert(headers_view(r@) =~= headers_view(prev).push(proof@[l as int]@[i as int]@));
                assert(headers_view(proof@[l as int]@).take(i + 1) =~= headers_view(
                    proof@[l as int]@,
                ).take(i as int).push(proof@[l as int]@[i as int]@));
                assert(headers_view(r@) =~= start + headers_view(proof@[l as int]@).take(i + 1));
            }
            i = i + 1;
        }
        proof {
            let pv = proof_view(proof@);
            assert(pv.take(l + 1).drop_last() =~= pv.take(l as int));
            assert(pv.take(l + 1).last() == headers_view(proof@[l as int]@));
            assert(headers_view(proof@[l as int]@).take(proof@[l as int]@.len() as int) =~= headers_view(
                proof@[l as int]@,
            ));
        }
        l = l + 1;
    }
    assert(proof_view(proof@).take(proof@.len() as int) =~= proof_view(proof@));
    r
}

/// Where a header of blue work `w` goes into `s`: after the last header whose
/// blue work is not above `w`.
pub open spec fn work_insert_pos(s: Seq<HeaderView>, w: BlueWork) -> int
    decreases s.len(),
{
    if s.len() == 0 {
        0
    } else if s.last().blue_work > w {
        work_insert_pos(s.drop_last(), w)
    } else {
        s.len() as int
    }
}

pub proof fn lemma_work_insert_pos(s: Seq<HeaderView>, w: BlueWork)
    ensures
        0 <= work_insert_pos(s, w) <= s.len(),
    decreases s.len(),
{
    if s.len() > 0 {
        lemma_work_insert_pos(s.drop_last(), w);
    }
}

/// The headers of `s` in ascending order of blue work; headers of equal blue
/// work keep their order.
pub open spec fn sort_by_work(s: Seq<HeaderView>) -> Seq<HeaderView>
    decreases s.len(),
{
    if s.len() == 0 {
        s
    } else {
        let r = sort_by_work(s.drop_last());
        r.insert(work_insert_pos(r, s.last().blue_work), s.last())
    }
}

pub proof fn lemma_sort_by_work_len(s: Seq<HeaderView>)
    ensures
        sort_by_work(s).len() == s.len(),
    decreases s.len(),
{
    if s.len() > 0 {
        lemma_sort_by_work_len(s.drop_last());
        lemma_work_insert_pos(sort_by_work(s.drop_last()), s.last().blue_work);
    }
}

proof fn lemma_work_insert_pos_bounds(s: Seq<HeaderView>, w: BlueWork)
    ensures
        forall|k: int| work_insert_pos(s, w) <= k < s.len() ==> #[trigger] s[k].blue_work > w,
        work_insert_pos(s, w) > 0 ==> s[work_insert_pos(s, w) - 1].blue_work <= w,
    decreases s.len(),
{
    if s.len() > 0 {
        let init = s.drop_last();
        lemma_work_insert_pos_bounds(init, w);
        lemma_work_insert_pos(init, w);
        if s.last().blue_work > w {
            assert forall|k: int| work_insert_pos(s, w) <= k < s.len() implies #[trigger] s[k].blue_work > w by {
                if k < s.len() - 1 {
                    assert(s[k] == init[k]);
                }
            }
            if work_insert_pos(s, w) > 0 {
                assert(s[work_insert_pos(s, w) - 1] == init[work_insert_pos(init, w) - 1]);
            }
        }
    }
}

/// Sorting by blue work gives the same headers, in ascending order of blue
/// work.
pub proof fn sort_by_work_sorts(s: Seq<HeaderView>)
    ensures
        sort_by_work(s).to_multiset() == s.to_multiset(),
        forall|i: int, j: int|
            0 <= i < j < sort_by_work(s).len() ==> (#[trigger] sort_by_work(s)[i]).blue_work
                <= (#[trigger] sort_by_work(s)[j]).blue_work,
    decreases s.len(),
{
    broadcast use vstd::seq_lib::to_multiset_build, vstd::seq_lib::to_multiset_insert;

    if s.len() == 0 {
    } else {
        let init = s.drop_last();
        let x = s.last();
        sort_by_work_sorts(init);
        let r = sort_by_work(init);
        lemma_sort_by_work_len(init);
        lemma_work_insert_pos(r, x.blue_work);
        lemma_work_insert_pos_bounds(r, x.blue_work);
        let p = work_insert_pos(r, x.blue_work);
        let t = r.insert(p, x);
        assert(sort_by_work(s) == t);
        assert(s =~= init.push(x));
        assert(t.to_multiset() == r.to_multiset().insert(x));
        assert forall|i: int, j: int| 0 <= i < j < t.len() implies (#[trigger] t[i]).blue_work
            <= (#[trigger] t[j]).blue_work by {
            if j < p {
                assert(t[i] == r[i] && t[j] == r[j]);
            } else if j == p {
                assert(t[i] == r[i]);
                assert(r[i].blue_work <= r[p - 1].blue_work);
            } else if i < p {
                assert(t[i] == r[i] && t[j] == r[j - 1]);
            } else if i == p {
                assert(t[j] == r[j - 1]);
                assert(r[j - 1].blue_work > x.blue_work);
            } else {
                assert(t[i] == r[i - 1] && t[j] == r[j - 1]);
            }
        }
    }
}

/// Level zero of a proof as applied is in ascending order of blue work and
/// holds exactly the headers of the proof's level zero with the trusted
/// headers it lacks; the other levels are applied as given.
pub proof fn applied_level_zero_is_sorted(proof: Seq<Seq<HeaderView>>, trusted: Seq<HeaderView>)
    requires
        proof.len() >= 1,
    ensures
        applied_proof(proof, trusted)[0].to_multiset() == merged_level_zero(proof[0], trusted).to_multiset(),
        forall|i: int, j: int|
            0 <= i < j < applied_proof(proof, trusted)[0].len() ==> (#[trigger] applied_proof(
                proof,
                trusted,
            )[0][i]).blue_work <= (#[trigger] applied_proof(proof, trusted)[0][j]).blue_work,
        forall|l: int| 1 <= l < proof.len() ==> #[trigger] applied_proof(proof, trusted)[l] == proof[l],
{
    sort_by_work_sorts(merged_level_zero(proof[0], trusted));
}

/// The headers of `s` in ascending order of blue work, headers of equal blue
/// work in their order in `s`.
pub fn sort_headers_by_work(v: &Vec<Header>) -> (r: Vec<Header>)
    ensures
        headers_view(r@) == sort_by_work(headers_view(v@)),
{
    let ghost hv = headers_view(v@);
    let mut r: Vec<Header> = Vec::new();
    let mut i: usize = 0;
    while i < v.len()
        invariant
            i <= v@.len(),
            hv == headers_view(v@),
            headers_view(r@) == sort_by_work(hv.take(i as int)),
        decreases v@.len() - i,
    {
        let h = v[i].copy();
        let w = h.blue_work;
        let ghost rv = headers_view(r@);
        let mut pos: usize = r.len();
        assert(rv.take(pos as int) =~= rv);
        while pos > 0 && r[pos - 1].blue_work > w
            invariant
                pos <= r@.len(),
                rv == headers_view(r@),
                work_insert_pos(rv, w) == work_insert_pos(rv.take(pos as int), w),
            decreases pos,
        {
            proof {
                assert(rv.take(pos as int).drop_last() =~= rv.take(pos - 1));
                assert(rv.take(pos as int).last() == r@[pos - 1]@);
            }
            pos = pos - 1;
        }
        proof {
            if pos > 0 {
                assert(rv.take(pos as int).last() == r@[pos - 1]@);
            }
            assert(work_insert_pos(rv, w) == pos);
            assert(hv.take(i + 1).drop_last() =~= hv.take(i as int));
            assert(hv.take(i + 1).last() == h@);
        }
        r.insert(pos, h);
        proof {
            assert(headers_view(r@) =~= rv.insert(pos as int, h@));
        }
        i = i + 1;
    }
    assert(hv.take(v@.len() as int) =~= hv);
    r
}

/// Level zero of a proof with the trusted headers added that it lacks, in
/// order.
pub open spec fn merged_level_zero(level_zero: Seq<HeaderView>, trusted: Seq<HeaderView>) -> Seq<
    HeaderView,
>
    decreases trusted.len(),
{
    if trusted.len() == 0 {
        level_zero
    } else {
        let r = merged_level_zero(level_zero, trusted.drop_last());
        if in_headers(level_zero, trusted.last().hash) {
            r
        } else {
            r.push(trusted.last())
        }
    }
}

/// The GHOSTDAG data that the last trusted block with hash `h` carries.
pub open spec fn trusted_gd(trusted: Seq<(BlockHash, GhostdagDataView)>, h: BlockHash) -> Option<
    GhostdagDataView,
>
    decreases trusted.len(),
{
    if trusted.len() == 0 {
        None
    } else if trusted.last().0 == h {
        Some(trusted.last().1)
    } else {
        trusted_gd(trusted.drop_last(), h)
    }
}

pub open spec fn trusted_headers_view(t: Seq<TrustedBlock>) -> Seq<HeaderView> {
    t.map_values(|b: TrustedBlock| b.header@)
}

pub open spec fn trusted_data_view(t: Seq<TrustedBlock>) -> Seq<(BlockHash, GhostdagDataView)> {
    t.map_values(|b: TrustedBlock| (b.header.hash, b.ghostdag@))
}

/// The elements of `ps` in `known`, in order.
pub open spec fn keep_known(ps: Seq<BlockHash>, known: Set<BlockHash>) -> Seq<BlockHash>
    decreases ps.len(),
{
    if ps.len() == 0 {
        ps
    } else if known.contains(ps.last()) {
        keep_known(ps.drop_last(), known).push(ps.last())
    } else {
        keep_known(ps.drop_last(), known)
    }
}

pub proof fn lemma_keep_known(ps: Seq<BlockHash>, known: Set<BlockHash>)
    ensures
        forall|j: int|
            0 <= j < keep_known(ps, known).len() ==> known.contains(#[trigger] keep_known(ps, known)[j])
                && ps.contains(keep_known(ps, known)[j]),
    decreases ps.len(),
{
    if ps.len() > 0 {
        let init = ps.drop_last();
        lemma_keep_known(init, known);
        let r = keep_known(init, known);
        assert forall|j: int| 0 <= j < r.len() implies ps.contains(#[trigger] r[j]) by {
            let t = choose|t: int| 0 <= t < init.len() && init[t] == r[j];
            assert(ps[t] == r[j]);
        }
        if known.contains(ps.last()) {
            assert forall|j: int|
                0 <= j < keep_known(ps, known).len() implies known.contains(
                #[trigger] keep_known(ps, known)[j],
            ) && ps.contains(keep_known(ps, known)[j]) by {
                if j < r.len() {
                    assert(keep_known(ps, known)[j] == r[j]);
                } else {
                    assert(ps[ps.len() - 1] == ps.last());
                }
            }
        }
    }
}

/// Each parent at `level` of each header of `headers` that has GHOSTDAG data
/// in `g` has an entry in `rel`.
pub open spec fn parents_have_relations(
    g: Map<BlockHash, GhostdagDataView>,
    rel: Map<BlockHash, (Seq<BlockHash>, Seq<BlockHash>)>,
    headers: Seq<HeaderView>,
    level: int,
    genesis_hash: BlockHash,
) -> bool {
    forall|i: int, x: BlockHash|
        0 <= i < headers.len() && #[trigger] spec_parents_at_level(headers[i], level, genesis_hash).contains(x)
            && g.contains_key(x) ==> rel.contains_key(x)
}

/// The blocks of a level's GHOSTDAG store when the header at `i` of `level_headers`
/// is applied: those stored before, `ORIGIN`, and the earlier headers.
pub open spec fn level_known(old_dom: Set<BlockHash>, level_headers: Seq<HeaderView>, i: int) -> Set<
    BlockHash,
> {
    old_dom.insert(ORIGIN).union(
        Set::new(|h: BlockHash| exists|j: int| 0 <= j < i && #[trigger] level_headers[j].hash == h),
    )
}

/// The parents recorded for the header at `i` of a level: its parents at the
/// level that have GHOSTDAG data by then, or `ORIGIN` alone where none has.
pub open spec fn applied_parents(
    old_dom: Set<BlockHash>,
    level_headers: Seq<HeaderView>,
    i: int,
    level: int,
    genesis_hash: BlockHash,
) -> Seq<BlockHash> {
    let ps = keep_known(
        spec_parents_at_level(level_headers[i], level, genesis_hash),
        level_known(old_dom, level_headers, i),
    );
    if ps.len() == 0 {
        seq![ORIGIN]
    } else {
        ps
    }
}

/// A level's relations after its first `k` headers are applied.
pub open spec fn relations_after(
    rel: Map<BlockHash, (Seq<BlockHash>, Seq<BlockHash>)>,
    old_dom: Set<BlockHash>,
    level_headers: Seq<HeaderView>,
    k: int,
    level: int,
    genesis_hash: BlockHash,
) -> Map<BlockHash, (Seq<BlockHash>, Seq<BlockHash>)>
    decreases k,
{
    if k <= 0 {
        rel
    } else {
        let r = relations_after(rel, old_dom, level_headers, k - 1, level, genesis_hash);
        let ps = applied_parents(old_dom, level_headers, k - 1, level, genesis_hash);
        let h = level_headers[k - 1].hash;
        with_child(r.insert(h, (ps, Seq::empty())), ps, h)
    }
}

/// `c` with the blue score and the blue work of the header `h`.
pub open spec fn with_header_work(c: GhostdagDataView, h: HeaderView) -> GhostdagDataView {
    GhostdagDataView {
        blue_score: h.blue_score,
        blue_work: h.blue_work,
        selected_parent: c.selected_parent,
        mergeset_blues: c.mergeset_blues,
        mergeset_reds: c.mergeset_reds,
        blues_anticone_sizes: c.blues_anticone_sizes,
    }
}

/// A level's GHOSTDAG store `g` after applying `level_headers` to `g0`: it
/// holds `ORIGIN` and each header besides what it held; at level zero a header
/// other than genesis carries the data of its trusted block where there is
/// one, and its own blue score and blue work otherwise.
pub open spec fn ghostdag_applied(
    g0: Map<BlockHash, GhostdagDataView>,
    g: Map<BlockHash, GhostdagDataView>,
    level_headers: Seq<HeaderView>,
    level: int,
    genesis_hash: BlockHash,
    trusted: Seq<(BlockHash, GhostdagDataView)>,
) -> bool {
    &&& g.dom() == level_known(g0.dom(), level_headers, level_headers.len() as int)
    &&& forall|h: BlockHash| #[trigger] g0.contains_key(h) ==> g[h] == g0[h]
    &&& forall|i: int|
        0 <= i < level_headers.len() && level == 0 && #[trigger] level_headers[i].hash
            != genesis_hash ==> match trusted_gd(trusted, level_headers[i].hash) {
            Some(d) => g[level_headers[i].hash] == d,
            None => g[level_headers[i].hash].blue_score == level_headers[i].blue_score
                && g[level_headers[i].hash].blue_work == level_headers[i].blue_work,
        }
}

pub proof fn lemma_concat_levels_len(p: Seq<Seq<HeaderView>>)
    requires
        p.len() >= 1,
    ensures
        concat_levels(p).len() >= p[0].len(),
    decreases p.len(),
{
    if p.len() > 1 {
        lemma_concat_levels_len(p.drop_last());
    } else {
        assert(concat_levels(p.drop_last()) =~= Seq::<HeaderView>::empty());
    }
}

pub proof fn lemma_merged_level_zero_len(a: Seq<HeaderView>, t: Seq<HeaderView>)
    ensures
        merged_level_zero(a, t).len() >= a.len(),
    decreases t.len(),
{
    if t.len() > 0 {
        lemma_merged_level_zero_len(a, t.drop_last());
    }
}

/// The proof as applied: level zero with the trusted headers it lacks added,
/// sorted by blue work.
pub open spec fn applied_proof(proof: Seq<Seq<HeaderView>>, trusted: Seq<HeaderView>) -> Seq<
    Seq<HeaderView>,
> {
    proof.update(0, sort_by_work(merged_level_zero(proof[0], trusted)))
}

/// `path` leads from `root` along child edges of `rel` through blocks of
/// `past` only.
pub open spec fn is_path_within(
    rel: Map<BlockHash, (Seq<BlockHash>, Seq<BlockHash>)>,
    past: Set<BlockHash>,
    root: BlockHash,
    path: Seq<BlockHash>,
) -> bool {
    &&& path.len() > 0
    &&& path[0] == root
    &&& forall|i: int| 0 <= i < path.len() ==> past.contains(#[trigger] path[i]) && rel.contains_key(path[i])
    &&& forall|i: int| 0 <= i < path.len() - 1 ==> rel[#[trigger] path[i]].1.contains(path[i + 1])
}

/// `x` can be reached from `root` along child edges of `rel` through blocks
/// of `past` only.
pub open spec fn reachable_within(
    rel: Map<BlockHash, (Seq<BlockHash>, Seq<BlockHash>)>,
    past: Set<BlockHash>,
    root: BlockHash,
    x: BlockHash,
) -> bool {
    exists|path: Seq<BlockHash>| #[trigger] is_path_within(rel, past, root, path) && path.last() == x
}

/// Blue work grows strictly along each child edge of `rel`.
pub open spec fn edge_monotone(
    rel: Map<BlockHash, (Seq<BlockHash>, Seq<BlockHash>)>,
    g: Map<BlockHash, GhostdagDataView>,
) -> bool {
    forall|h: BlockHash, c: BlockHash|
        #[trigger] rel.contains_key(h) && #[trigger] rel[h].1.contains(c) ==> g[c].blue_work
            > g[h].blue_work
}

/// A set `out` that holds `root` where `root` is in `past`, and each block of
/// `past` that is a child of a block in `out`, holds each block reachable
/// from `root` through `past`.
pub proof fn lemma_closed_holds_reachable(
    rel: Map<BlockHash, (Seq<BlockHash>, Seq<BlockHash>)>,
    past: Set<BlockHash>,
    root: BlockHash,
    out: Set<BlockHash>,
    path: Seq<BlockHash>,
)
    requires
        past.contains(root) ==> out.contains(root),
        forall|x: BlockHash, c: BlockHash|
            #[trigger] out.contains(x) && #[trigger] rel[x].1.contains(c) && past.contains(c)
                ==> out.contains(c),
        is_path_within(rel, past, root, path),
    ensures
        out.contains(path.last()),
    decreases path.len(),
{
    if path.len() > 1 {
        let init = path.drop_last();
        assert(is_path_within(rel, past, root, init)) by {
            assert forall|i: int| 0 <= i < init.len() - 1 implies rel[#[trigger] init[i]].1.contains(init[i + 1]) by {
                assert(init[i] == path[i] && init[i + 1] == path[i + 1]);
            }
            assert forall|i: int| 0 <= i < init.len() implies past.contains(#[trigger] init[i]) && rel.contains_key(init[i]) by {
                assert(init[i] == path[i]);
            }
        }
        lemma_closed_holds_reachable(rel, past, root, out, init);
        let k = path.len() - 2;
        assert(rel[path[k]].1.contains(path[k + 1]));
        assert(past.contains(path[k + 1]));
    } else {
        assert(past.contains(path[0]));
    }
}

/// Removes and returns the smallest block of `q`.
pub fn pop_min(q: &mut Vec<SortableBlock>) -> (r: SortableBlock)
    requires
        old(q)@.len() > 0,
    ensures
        old(q)@.contains(r),
        forall|x: SortableBlock| #[trigger] old(q)@.contains(x) ==> sortable_le(r, x),
        forall|x: SortableBlock| #[trigger] final(q)@.contains(x) ==> old(q)@.contains(x),
        forall|x: SortableBlock| #[trigger] old(q)@.contains(x) ==> final(q)@.contains(x) || x == r,
        final(q)@.len() == old(q)@.len() - 1,
{
    let mut best: usize = 0;
    let mut i: usize = 1;
    while i < q.len()
        invariant
            1 <= i <= q@.len(),
            best < q@.len(),
            q@ == old(q)@,
            forall|k: int| 0 <= k < i ==> sortable_le(q@[best as int], #[trigger] q@[k]),
        decreases q@.len() - i,
    {
        if q[i].less_than(&q[best]) {
            best = i;
        }
        i = i + 1;
    }
    let ghost before = q@;
    let r = q.remove(best);
    proof {
        assert(before[best as int] == r);
        assert forall|x: SortableBlock| #[trigger] before.contains(x) implies sortable_le(r, x) by {
            let k = choose|k: int| 0 <= k < before.len() && before[k] == x;
        }
        assert forall|x: SortableBlock| #[trigger] q@.contains(x) implies before.contains(x) by {
            let k = choose|k: int| 0 <= k < q@.len() && q@[k] == x;
            if k < best {
                assert(before[k] == x);
            } else {
                assert(before[k + 1] == x);
            }
        }
        assert forall|x: SortableBlock| #[trigger] before.contains(x) implies q@.contains(x) || x == r by {
            let k = choose|k: int| 0 <= k < before.len() && before[k] == x;
            if k < best {
                assert(q@[k] == x);
            } else if k > best {
                assert(q@[k - 1] == x);
            }
        }
    }
    r
}

/// Each stored header is stored under its own hash.
pub open spec fn headers_keyed(m: Map<BlockHash, (HeaderView, BlockLevel)>) -> bool {
    forall|h: BlockHash| #[trigger] m.contains_key(h) ==> m[h].0.hash == h
}

/// The block `h` with its blue work in `g`.
pub open spec fn sortable_at(g: Map<BlockHash, GhostdagDataView>, h: BlockHash) -> SortableBlock {
    SortableBlock { hash: h, blue_work: g[h].blue_work }
}

/// `out` holds the header of each block reachable from `root` along child
/// edges of `rel` within `past`, each once and no other, the root first; in
/// ascending order of blue work (then hash) where blue work grows along each
/// edge.
pub open spec fn level_headers_ok(
    rel: Map<BlockHash, (Seq<BlockHash>, Seq<BlockHash>)>,
    g: Map<BlockHash, GhostdagDataView>,
    past: Set<BlockHash>,
    hs: Map<BlockHash, (HeaderView, BlockLevel)>,
    root: BlockHash,
    out: Seq<HeaderView>,
) -> bool {
    &&& forall|i: int|
        0 <= i < out.len() ==> #[trigger] out[i] == hs[out[i].hash].0 && reachable_within(
            rel,
            past,
            root,
            out[i].hash,
        )
    &&& forall|x: BlockHash|
        reachable_within(rel, past, root, x) ==> exists|i: int| 0 <= i < out.len() && #[trigger] out[i].hash == x
    &&& forall|i: int, j: int| 0 <= i < j < out.len() ==> #[trigger] out[i].hash != #[trigger] out[j].hash
    &&& past.contains(root) ==> out.len() > 0 && out[0].hash == root
    &&& edge_monotone(rel, g) ==> forall|i: int, j: int|
        0 <= i < j < out.len() ==> sortable_lt(
            sortable_at(g, #[trigger] out[i].hash),
            sortable_at(g, #[trigger] out[j].hash),
        )
}

/// What a traversal of `rel` from `root` within `past` relies on.
pub open spec fn bfs_env(
    rel: Map<BlockHash, (Seq<BlockHash>, Seq<BlockHash>)>,
    g: Map<BlockHash, GhostdagDataView>,
    past: Set<BlockHash>,
    hs: Map<BlockHash, (HeaderView, BlockLevel)>,
    root: BlockHash,
) -> bool {
    &&& rel.dom().finite()
    &&& rel_wf(rel)
    &&& rel.contains_key(root)
    &&& forall|h: BlockHash| #[trigger] rel.contains_key(h) ==> g.contains_key(h)
    &&& headers_keyed(hs)
    &&& forall|h: BlockHash| #[trigger] reachable_within(rel, past, root, h) ==> hs.contains_key(h)
}

/// The state of a traversal of `rel` from `root` within `past`: the queue
/// `q`, the visited blocks `v` and the headers output so far `out`.
pub open spec fn bfs_inv(
    rel: Map<BlockHash, (Seq<BlockHash>, Seq<BlockHash>)>,
    g: Map<BlockHash, GhostdagDataView>,
    past: Set<BlockHash>,
    hs: Map<BlockHash, (HeaderView, BlockLevel)>,
    root: BlockHash,
    q: Seq<SortableBlock>,
    v: Seq<BlockHash>,
    out: Seq<HeaderView>,
) -> bool {
    &&& v.no_duplicates()
    &&& forall|k: int| 0 <= k < v.len() ==> rel.contains_key(#[trigger] v[k])
    &&& forall|k: int|
        0 <= k < q.len() ==> rel.contains_key(#[trigger] q[k].hash) && q[k] == sortable_at(g, q[k].hash)
    &&& forall|i: int|
        0 <= i < out.len() ==> #[trigger] out[i] == hs[out[i].hash].0 && v.contains(out[i].hash)
            && past.contains(out[i].hash)
    &&& forall|x: BlockHash|
        #[trigger] v.contains(x) && past.contains(x) ==> exists|i: int|
            0 <= i < out.len() && #[trigger] out[i].hash == x
    &&& forall|i: int, j: int| 0 <= i < j < out.len() ==> #[trigger] out[i].hash != #[trigger] out[j].hash
    &&& forall|i: int, c: BlockHash|
        0 <= i < out.len() && #[trigger] rel[out[i].hash].1.contains(c) ==> v.contains(c) || exists|k: int|
            0 <= k < q.len() && #[trigger] q[k].hash == c
    &&& v.contains(root) || exists|k: int| 0 <= k < q.len() && #[trigger] q[k].hash == root
    &&& forall|i: int| 0 <= i < out.len() ==> reachable_within(rel, past, root, #[trigger] out[i].hash)
    &&& forall|k: int|
        0 <= k < q.len() ==> #[trigger] q[k].hash == root || exists|i: int|
            0 <= i < out.len() && #[trigger] rel[out[i].hash].1.contains(q[k].hash)
    &&& edge_monotone(rel, g) ==> forall|i: int, j: int|
        0 <= i < j < out.len() ==> sortable_lt(
            sortable_at(g, #[trigger] out[i].hash),
            sortable_at(g, #[trigger] out[j].hash),
        )
    &&& edge_monotone(rel, g) ==> forall|i: int, k: int|
        0 <= i < out.len() && 0 <= k < q.len() ==> sortable_le(
            sortable_at(g, #[trigger] out[i].hash),
            #[trigger] q[k],
        )
}

/// `q1` is `q0` with its least block `popped` removed once.
pub open spec fn popped_from(q0: Seq<SortableBlock>, q1: Seq<SortableBlock>, popped: SortableBlock) -> bool {
    &&& q0.contains(popped)
    &&& forall|x: SortableBlock| #[trigger] q0.contains(x) ==> sortable_le(popped, x)
    &&& forall|x: SortableBlock| #[trigger] q1.contains(x) ==> q0.contains(x)
    &&& forall|x: SortableBlock| #[trigger] q0.contains(x) ==> q1.contains(x) || x == popped
}

pub proof fn lemma_bfs_after_pop(
    rel: Map<BlockHash, (Seq<BlockHash>, Seq<BlockHash>)>,
    g: Map<BlockHash, GhostdagDataView>,
    past: Set<BlockHash>,
    hs: Map<BlockHash, (HeaderView, BlockLevel)>,
    root: BlockHash,
    q0: Seq<SortableBlock>,
    q1: Seq<SortableBlock>,
    popped: SortableBlock,
    v: Seq<BlockHash>,
    out: Seq<HeaderView>,
)
    requires
        bfs_inv(rel, g, past, hs, root, q0, v, out),
        popped_from(q0, q1, popped),
    ensures
        rel.contains_key(popped.hash),
        popped == sortable_at(g, popped.hash),
        forall|k: int|
            0 <= k < q1.len() ==> rel.contains_key(#[trigger] q1[k].hash) && q1[k] == sortable_at(g, q1[k].hash),
        forall|i: int, c: BlockHash|
            0 <= i < out.len() && #[trigger] rel[out[i].hash].1.contains(c) ==> v.contains(c) || c
                == popped.hash || exists|k: int| 0 <= k < q1.len() && #[trigger] q1[k].hash == c,
        v.contains(root) || popped.hash == root || exists|k: int| 0 <= k < q1.len() && #[trigger] q1[k].hash == root,
        popped.hash == root || exists|i: int| 0 <= i < out.len() && #[trigger] rel[out[i].hash].1.contains(popped.hash),
        forall|k: int|
            0 <= k < q1.len() ==> #[trigger] q1[k].hash == root || exists|i: int|
                0 <= i < out.len() && #[trigger] rel[out[i].hash].1.contains(q1[k].hash),
        forall|k: int| 0 <= k < q1.len() ==> sortable_le(popped, #[trigger] q1[k]),
        edge_monotone(rel, g) ==> forall|i: int| 0 <= i < out.len() ==> sortable_le(
            sortable_at(g, #[trigger] out[i].hash),
            popped,
        ),
        edge_monotone(rel, g) ==> forall|i: int, k: int|
            0 <= i < out.len() && 0 <= k < q1.len() ==> sortable_le(
                sortable_at(g, #[trigger] out[i].hash),
                #[trigger] q1[k],
            ),
{
    let kp = choose|k: int| 0 <= k < q0.len() && q0[k] == popped;
    assert(q0[kp] == popped);
    assert forall|k: int| 0 <= k < q1.len() implies sortable_le(popped, #[trigger] q1[k]) by {
        assert(q1.contains(q1[k]));
        assert(q0.contains(q1[k]));
    }
    assert forall|k: int| 0 <= k < q1.len() implies rel.contains_key(#[trigger] q1[k].hash) && q1[k]
        == sortable_at(g, q1[k].hash) && sortable_le(popped, q1[k]) && (q1[k].hash == root || exists|i: int|
        0 <= i < out.len() && #[trigger] rel[out[i].hash].1.contains(q1[k].hash)) by {
        assert(q1.contains(q1[k]));
        let k0 = choose|k0: int| 0 <= k0 < q0.len() && q0[k0] == q1[k];
        assert(q0[k0].hash == q1[k].hash);
    }
    assert forall|i: int, c: BlockHash|
        0 <= i < out.len() && #[trigger] rel[out[i].hash].1.contains(c) implies v.contains(c) || c
            == popped.hash || exists|k: int| 0 <= k < q1.len() && #[trigger] q1[k].hash == c by {
        if !v.contains(c) {
            let k0 = choose|k0: int| 0 <= k0 < q0.len() && #[trigger] q0[k0].hash == c;
            assert(q0.contains(q0[k0]));
            if q0[k0] != popped {
                assert(q1.contains(q0[k0]));
                let k1 = choose|k1: int| 0 <= k1 < q1.len() && q1[k1] == q0[k0];
                assert(q1[k1].hash == c);
            }
        }
    }
    if !v.contains(root) {
        let k0 = choose|k0: int| 0 <= k0 < q0.len() && #[trigger] q0[k0].hash == root;
        assert(q0.contains(q0[k0]));
        if q0[k0] != popped {
            assert(q1.contains(q0[k0]));
            let k1 = choose|k1: int| 0 <= k1 < q1.len() && q1[k1] == q0[k0];
            assert(q1[k1].hash == root);
        }
    }
    if edge_monotone(rel, g) {
        assert forall|i: int, k: int|
            0 <= i < out.len() && 0 <= k < q1.len() implies sortable_le(
                sortable_at(g, #[trigger] out[i].hash),
                #[trigger] q1[k],
            ) by {
            assert(q1.contains(q1[k]));
            let k0 = choose|k0: int| 0 <= k0 < q0.len() && q0[k0] == q1[k];
        }
    }
}

/// Popping a visited block keeps the traversal state.
pub proof fn lemma_bfs_skip_visited(
    rel: Map<BlockHash, (Seq<BlockHash>, Seq<BlockHash>)>,
    g: Map<BlockHash, GhostdagDataView>,
    past: Set<BlockHash>,
    hs: Map<BlockHash, (HeaderView, BlockLevel)>,
    root: BlockHash,
    q0: Seq<SortableBlock>,
    q1: Seq<SortableBlock>,
    popped: SortableBlock,
    v: Seq<BlockHash>,
    out: Seq<HeaderView>,
)
    requires
        bfs_inv(rel, g, past, hs, root, q0, v, out),
        popped_from(q0, q1, popped),
        v.contains(popped.hash),
    ensures
        bfs_inv(rel, g, past, hs, root, q1, v, out),
{
    lemma_bfs_after_pop(rel, g, past, hs, root, q0, q1, popped, v, out);
}

/// Visiting a new block outside the past keeps the traversal state.
pub proof fn lemma_bfs_visit_outside(
    rel: Map<BlockHash, (Seq<BlockHash>, Seq<BlockHash>)>,
    g: Map<BlockHash, GhostdagDataView>,
    past: Set<BlockHash>,
    hs: Map<BlockHash, (HeaderView, BlockLevel)>,
    root: BlockHash,
    q0: Seq<SortableBlock>,
    q1: Seq<SortableBlock>,
    popped: SortableBlock,
    v: Seq<BlockHash>,
    out: Seq<HeaderView>,
)
    requires
        bfs_inv(rel, g, past, hs, root, q0, v, out),
        popped_from(q0, q1, popped),
        !v.contains(popped.hash),
        !past.contains(popped.hash),
    ensures
        bfs_inv(rel, g, past, hs, root, q1, v.push(popped.hash), out),
{
    lemma_bfs_after_pop(rel, g, past, hs, root, q0, q1, popped, v, out);
    let v1 = v.push(popped.hash);
    assert forall|x: BlockHash| v.contains(x) implies v1.contains(x) by {
        let k = choose|k: int| 0 <= k < v.len() && v[k] == x;
        assert(v1[k] == x);
    }
    assert(v1.contains(popped.hash)) by {
        assert(v1[v.len() as int] == popped.hash);
    }
    assert forall|x: BlockHash| v1.contains(x) implies v.contains(x) || x == popped.hash by {
        let k = choose|k: int| 0 <= k < v1.len() && v1[k] == x;
        if k < v.len() {
            assert(v[k] == x);
        }
    }
    assert(v1.no_duplicates()) by {
        assert forall|a: int, b: int| 0 <= a < b < v1.len() implies v1[a] != v1[b] by {
            if b == v.len() {
                assert(v.contains(v1[a]));
            } else {
                assert(v[a] != v[b]);
            }
        }
    }
    assert forall|k: int| 0 <= k < v1.len() implies rel.contains_key(#[trigger] v1[k]) by {
        if k < v.len() {
            assert(v1[k] == v[k]);
        }
    }
}

/// A queued block of `past` is reachable from `root` within `past`: it is
/// the root or a child of a block already output.
pub proof fn lemma_bfs_popped_reachable(
    rel: Map<BlockHash, (Seq<BlockHash>, Seq<BlockHash>)>,
    g: Map<BlockHash, GhostdagDataView>,
    past: Set<BlockHash>,
    hs: Map<BlockHash, (HeaderView, BlockLevel)>,
    root: BlockHash,
    q0: Seq<SortableBlock>,
    v: Seq<BlockHash>,
    out: Seq<HeaderView>,
    popped: SortableBlock,
)
    requires
        bfs_inv(rel, g, past, hs, root, q0, v, out),
        q0.contains(popped),
        past.contains(popped.hash),
    ensures
        reachable_within(rel, past, root, popped.hash),
{
    let cur = popped.hash;
    let k0 = choose|k: int| 0 <= k < q0.len() && q0[k] == popped;
    assert(q0[k0].hash == cur);
    if cur == root {
        let path = seq![root];
        assert(is_path_within(rel, past, root, path));
    } else {
        let i = choose|i: int| 0 <= i < out.len() && #[trigger] rel[out[i].hash].1.contains(cur);
        let path0 = choose|path: Seq<BlockHash>| #[trigger] is_path_within(rel, past, root, path)
            && path.last() == out[i].hash;
        let path = path0.push(cur);
        assert forall|j: int| 0 <= j < path.len() - 1 implies rel[#[trigger] path[j]].1.contains(path[j + 1]) by {
            if j < path0.len() - 1 {
                assert(path[j] == path0[j] && path[j + 1] == path0[j + 1]);
            } else {
                assert(path[j] == out[i].hash);
            }
        }
        assert forall|j: int| 0 <= j < path.len() implies past.contains(#[trigger] path[j]) && rel.contains_key(path[j]) by {
            if j < path0.len() {
                assert(path[j] == path0[j]);
            }
        }
        assert(is_path_within(rel, past, root, path));
        assert(path.last() == cur);
    }
}

/// Visiting a new block of the past outputs its header and queues its
/// children, keeping the traversal state.
pub proof fn lemma_bfs_visit_output(
    rel: Map<BlockHash, (Seq<BlockHash>, Seq<BlockHash>)>,
    g: Map<BlockHash, GhostdagDataView>,
    past: Set<BlockHash>,
    hs: Map<BlockHash, (HeaderView, BlockLevel)>,
    root: BlockHash,
    q0: Seq<SortableBlock>,
    q1: Seq<SortableBlock>,
    q2: Seq<SortableBlock>,
    popped: SortableBlock,
    v: Seq<BlockHash>,
    out: Seq<HeaderView>,
    header: HeaderView,
)
    requires
        bfs_env(rel, g, past, hs, root),
        bfs_inv(rel, g, past, hs, root, q0, v, out),
        popped_from(q0, q1, popped),
        !v.contains(popped.hash),
        past.contains(popped.hash),
        header == hs[popped.hash].0,
        q2.len() == q1.len() + rel[popped.hash].1.len(),
        forall|k: int| 0 <= k < q1.len() ==> q2[k] == q1[k],
        forall|j: int|
            0 <= j < rel[popped.hash].1.len() ==> q2[q1.len() + j] == sortable_at(
                g,
                #[trigger] rel[popped.hash].1[j],
            ),
    ensures
        bfs_inv(rel, g, past, hs, root, q2, v.push(popped.hash), out.push(header)),
{
    lemma_bfs_after_pop(rel, g, past, hs, root, q0, q1, popped, v, out);
    let cur = popped.hash;
    let ch = rel[cur].1;
    let v1 = v.push(cur);
    let o1 = out.push(header);
    let ni = out.len() as int;
    assert forall|x: BlockHash| v.contains(x) implies v1.contains(x) by {
        let k = choose|k: int| 0 <= k < v.len() && v[k] == x;
        assert(v1[k] == x);
    }
    assert(v1.contains(cur)) by {
        assert(v1[v.len() as int] == cur);
    }
    assert forall|x: BlockHash| v1.contains(x) implies v.contains(x) || x == cur by {
        let k = choose|k: int| 0 <= k < v1.len() && v1[k] == x;
        if k < v.len() {
            assert(v[k] == x);
        }
    }
    assert(v1.no_duplicates()) by {
        assert forall|a: int, b: int| 0 <= a < b < v1.len() implies v1[a] != v1[b] by {
            if b == v.len() {
                assert(v.contains(v1[a]));
            } else {
                assert(v[a] != v[b]);
            }
        }
    }
    assert forall|k: int| 0 <= k < v1.len() implies rel.contains_key(#[trigger] v1[k]) by {
        if k < v.len() {
            assert(v1[k] == v[k]);
        }
    }
    lemma_bfs_popped_reachable(rel, g, past, hs, root, q0, v, out, popped);
    assert(hs.contains_key(cur));
    assert(header.hash == cur);
    assert(o1[ni].hash == cur);
    assert forall|k: int| 0 <= k < q2.len() implies rel.contains_key(#[trigger] q2[k].hash) && q2[k]
        == sortable_at(g, q2[k].hash) && (q2[k].hash == root || exists|i: int|
        0 <= i < o1.len() && #[trigger] rel[o1[i].hash].1.contains(q2[k].hash)) by {
        if k < q1.len() {
            assert(q2[k] == q1[k]);
            if q1[k].hash != root {
                let i = choose|i: int| 0 <= i < out.len() && #[trigger] rel[out[i].hash].1.contains(q1[k].hash);
                assert(o1[i] == out[i]);
            }
        } else {
            let j = k - q1.len();
            assert(q2[q1.len() + j] == sortable_at(g, ch[j]));
            assert(ch.contains(ch[j]));
            assert(rel[o1[ni].hash].1.contains(q2[k].hash));
        }
    }
    assert forall|i: int|
        0 <= i < o1.len() implies #[trigger] o1[i] == hs[o1[i].hash].0 && v1.contains(o1[i].hash)
            && past.contains(o1[i].hash) by {
        if i < ni {
            assert(o1[i] == out[i]);
        }
    }
    assert forall|x: BlockHash|
        #[trigger] v1.contains(x) && past.contains(x) implies exists|i: int|
            0 <= i < o1.len() && #[trigger] o1[i].hash == x by {
        if x == cur {
            assert(o1[ni].hash == x);
        } else {
            let i = choose|i: int| 0 <= i < out.len() && #[trigger] out[i].hash == x;
            assert(o1[i] == out[i]);
        }
    }
    assert forall|i: int, j: int| 0 <= i < j < o1.len() implies #[trigger] o1[i].hash != #[trigger] o1[j].hash by {
        if j == ni {
            assert(o1[i] == out[i]);
            assert(v.contains(out[i].hash));
        } else {
            assert(o1[i] == out[i] && o1[j] == out[j]);
        }
    }
    assert forall|i: int, c: BlockHash|
        0 <= i < o1.len() && #[trigger] rel[o1[i].hash].1.contains(c) implies v1.contains(c) || exists|k: int|
            0 <= k < q2.len() && #[trigger] q2[k].hash == c by {
        if i == ni {
            let j = choose|j: int| 0 <= j < ch.len() && ch[j] == c;
            assert(q2[q1.len() + j] == sortable_at(g, ch[j]));
            assert(q2[q1.len() + j].hash == c);
        } else {
            assert(o1[i] == out[i]);
            if !v1.contains(c) {
                let k1 = choose|k1: int| 0 <= k1 < q1.len() && #[trigger] q1[k1].hash == c;
                assert(q2[k1] == q1[k1]);
            }
        }
    }
    if !v1.contains(root) {
        let k1 = choose|k1: int| 0 <= k1 < q1.len() && #[trigger] q1[k1].hash == root;
        assert(q2[k1] == q1[k1]);
    }
    assert forall|i: int| 0 <= i < o1.len() implies reachable_within(rel, past, root, #[trigger] o1[i].hash) by {
        if i < ni {
            assert(o1[i] == out[i]);
        }
    }
    if edge_monotone(rel, g) {
        assert(popped == sortable_at(g, cur));
        assert forall|i: int, j: int|
            0 <= i < j < o1.len() implies sortable_lt(
                sortable_at(g, #[trigger] o1[i].hash),
                sortable_at(g, #[trigger] o1[j].hash),
            ) by {
            if j == ni {
                assert(o1[i] == out[i]);
                assert(sortable_le(sortable_at(g, out[i].hash), popped));
                assert(v.contains(out[i].hash));
            } else {
                assert(o1[i] == out[i] && o1[j] == out[j]);
            }
        }
        assert forall|i: int, k: int|
            0 <= i < o1.len() && 0 <= k < q2.len() implies sortable_le(
                sortable_at(g, #[trigger] o1[i].hash),
                #[trigger] q2[k],
            ) by {
            if i < ni {
                assert(o1[i] == out[i]);
                assert(sortable_le(sortable_at(g, out[i].hash), popped));
            }
            if k < q1.len() {
                assert(q2[k] == q1[k]);
                assert(sortable_le(popped, q1[k]));
            } else {
                let j = k - q1.len();
                assert(q2[q1.len() + j] == sortable_at(g, ch[j]));
                assert(ch.contains(ch[j]));
                assert(g[ch[j]].blue_work > g[cur].blue_work);
            }
        }
    }
}

/// The GHOSTDAG and relations stores of each of the first `n` levels after the
/// headers of that level of `p` are applied to them.
pub open spec fn levels_applied(
    old_stores: Seq<GhostdagStore>,
    new_stores: Seq<GhostdagStore>,
    old_rels: Seq<RelationsStore>,
    new_rels: Seq<RelationsStore>,
    p: Seq<Seq<HeaderView>>,
    n: int,
    genesis_hash: BlockHash,
    trusted: Seq<(BlockHash, GhostdagDataView)>,
) -> bool {
    forall|l: int|
        0 <= l < n ==> ghostdag_applied(
            old_stores[l]@,
            #[trigger] new_stores[l]@,
            p[l],
            l,
            genesis_hash,
            trusted,
        ) && new_rels[l]@ == relations_after(
            old_rels[l]@,
            old_stores[l]@.dom(),
            p[l],
            p[l].len() as int,
            l,
            genesis_hash,
        )
}

/// The GHOSTDAG and relations stores of the levels from `from` on are unchanged.
pub open spec fn levels_unchanged(
    old_stores: Seq<GhostdagStore>,
    new_stores: Seq<GhostdagStore>,
    old_rels: Seq<RelationsStore>,
    new_rels: Seq<RelationsStore>,
    from: int,
) -> bool {
    forall|l: int|
        from <= l < old_stores.len() ==> #[trigger] new_stores[l] == old_stores[l] && new_rels[l]
            == old_rels[l]
}

/// The largest block of `s` by blue work in `g` and then hash; of two blocks
/// that order the same, the first.
pub open spec fn max_sortable(g: Map<BlockHash, GhostdagDataView>, s: Seq<BlockHash>) -> BlockHash
    decreases s.len(),
{
    if s.len() <= 1 {
        s[0]
    } else {
        let m = max_sortable(g, s.drop_last());
        if sortable_lt(sortable_at(g, m), sortable_at(g, s.last())) {
            s.last()
        } else {
            m
        }
    }
}

/// A proof block with its blue work and its parents over all levels.
pub struct DagEntry {
    pub blue_work: BlueWork,
    pub parents: Vec<BlockHash>,
}

/// The proof, the anticone and the trusted data computed for one pruning
/// point.
pub struct CachedData {
    pub pruning_point: BlockHash,
    pub proof: PruningPointProof,
    pub anticone: Vec<BlockHash>,
    pub daa_window_headers: Vec<TrustedHeader>,
    pub ghostdag_blocks: Vec<TrustedGhostdagData>,
}

/// The virtual state set when a proof is applied.
pub struct VirtualState {
    pub parents: Vec<BlockHash>,
    pub ghostdag_data: GhostdagData,
    pub daa_score: u64,
    pub bits: u32,
    pub accepted_tx_ids: Vec<BlockHash>,
    pub past_median_time: u64,
}

/// Builds, applies and serves pruning point proofs over the consensus stores.
pub struct PruningProofManager<P: ProofOfWork, G: GhostdagManager, T: DagTraversal> {
    pub headers_store: HeadersStore,
    pub reachability_store: ReachabilityStore,
    pub parents_manager: ParentsManager,
    pub ghostdag_stores: Vec<GhostdagStore>,
    pub relations_stores: Vec<RelationsStore>,
    pub pruning_store: PruningStore,
    pub past_pruning_points_store: PastPruningPointsStore,
    pub virtual_state: Option<VirtualState>,
    pub body_tips: Vec<BlockHash>,
    pub headers_selected_tip: Option<SortableBlock>,
    pub selected_chain: Vec<BlockHash>,
    pub ghostdag_managers: G,
    pub traversal_manager: T,
    pub pow: P,
    pub cached_pruning_point_proof_and_anticone: Option<CachedData>,
    pub max_block_level: BlockLevel,
    pub genesis_hash: BlockHash,
    pub pruning_proof_m: u64,
    pub difficulty_adjustment_window_size: usize,
    pub ghostdag_k: KType,
}

impl<P: ProofOfWork, G: GhostdagManager, T: DagTraversal> PruningProofManager<P, G, T> {
    /// The invariant of the manager: one GHOSTDAG store and one relations store
    /// per block level, and a well-formed reachability store.
    pub open spec fn inv(&self) -> bool {
        &&& self.ghostdag_stores@.len() == self.max_block_level as int + 1
        &&& self.relations_stores@.len() == self.max_block_level as int + 1
        &&& reach_wf(self.reachability_store@)
        &&& self.parents_manager.genesis_hash == self.genesis_hash
    }

    /// `level` is the block level that the proof of work gives a header with
    /// view `h`: `max_block_level` less the bits that `pow_bits` can report
    /// for that header, or 0 where that is negative.
    pub open spec fn pow_level(&self, h: HeaderView, level: BlockLevel) -> bool {
        exists|hd: Header, bits: u32|
            hd@ == h && #[trigger] call_ensures(P::pow_bits, (&self.pow, &hd), bits) && level
                == spec_block_level(self.max_block_level, bits)
    }

    /// Each header that `new` holds and `old` does not is stored at the block
    /// level its proof of work gives.
    pub open spec fn new_headers_at_pow_level(
        &self,
        old: Map<BlockHash, (HeaderView, BlockLevel)>,
        new: Map<BlockHash, (HeaderView, BlockLevel)>,
    ) -> bool {
        forall|k: BlockHash|
            #[trigger] new.contains_key(k) && !old.contains_key(k) ==> self.pow_level(new[k].0, new[k].1)
    }

    /// `d` is GHOSTDAG data that the manager's `ghostdag` can compute at
    /// `level` for a block with the parents `parents`, from a store with view
    /// `known`.
    pub open spec fn ghostdag_of(
        mgr: G,
        level: int,
        known: Map<BlockHash, GhostdagDataView>,
        parents: Seq<BlockHash>,
        d: GhostdagDataView,
    ) -> bool {
        exists|st: GhostdagStore, pv: Vec<BlockHash>, c: GhostdagData|
            st@ == known && pv@ == parents && c@ == d && #[trigger] call_ensures(
                G::ghostdag,
                (&mgr, level as usize, &st, &pv),
                c,
            )
    }

    /// `d` is data that the manager's `origin_ghostdag_data` can give at `level`.
    pub open spec fn origin_of(mgr: G, level: int, d: GhostdagDataView) -> bool {
        exists|c: GhostdagData|
            c@ == d && #[trigger] call_ensures(G::origin_ghostdag_data, (&mgr, level as usize), c)
    }

    /// `d` is data that the manager's `genesis_ghostdag_data` can give at
    /// `level`.
    pub open spec fn genesis_of(mgr: G, level: int, d: GhostdagDataView) -> bool {
        exists|c: GhostdagData|
            c@ == d && #[trigger] call_ensures(G::genesis_ghostdag_data, (&mgr, level as usize), c)
    }

    /// The GHOSTDAG data stored for the proof header `h` at `level`, with the
    /// store holding `known` when it is computed and the recorded parents
    /// `parents`: the genesis data for genesis; at level zero the data of its
    /// trusted block where there is one, and otherwise the computed data
    /// with the header's blue score and blue work; above level zero the
    /// computed data.
    pub open spec fn computed_data(
        mgr: G,
        genesis_hash: BlockHash,
        known: Map<BlockHash, GhostdagDataView>,
        parents: Seq<BlockHash>,
        h: HeaderView,
        level: int,
        trusted: Seq<(BlockHash, GhostdagDataView)>,
        d: GhostdagDataView,
    ) -> bool {
        if h.hash == genesis_hash {
            Self::genesis_of(mgr, level, d)
        } else if level == 0 {
            match trusted_gd(trusted, h.hash) {
                Some(t) => d == t,
                None => exists|c: GhostdagDataView|
                    #[trigger] Self::ghostdag_of(mgr, level, known, parents, c) && d == with_header_work(
                        c,
                        h,
                    ),
            }
        } else {
            Self::ghostdag_of(mgr, level, known, parents, d)
        }
    }

    /// The GHOSTDAG store `g` of `level` holds the data the manager gives
    /// `ORIGIN`, and for each header of `lh` the data computed for it from the
    /// store as it was before it (what `g0` held, `ORIGIN` and the earlier
    /// headers) and its recorded parents.
    pub open spec fn level_ghostdag_computed(
        mgr: G,
        genesis_hash: BlockHash,
        g0: Map<BlockHash, GhostdagDataView>,
        g: Map<BlockHash, GhostdagDataView>,
        lh: Seq<HeaderView>,
        level: int,
        trusted: Seq<(BlockHash, GhostdagDataView)>,
    ) -> bool {
        &&& g.contains_key(ORIGIN)
        &&& Self::origin_of(mgr, level, g[ORIGIN])
        &&& forall|i: int|
            0 <= i < lh.len() ==> #[trigger] Self::computed_data(
                mgr,
                genesis_hash,
                g.restrict(level_known(g0.dom(), lh, i)),
                applied_parents(g0.dom(), lh, i, level, genesis_hash),
                lh[i],
                level,
                trusted,
                g[lh[i].hash],
            )
    }

    /// Each of the first `n` levels of `new_stores` holds the GHOSTDAG data
    /// that applying the headers of that level of `p` to `old_stores` computes.
    pub open spec fn levels_ghostdag_computed(
        mgr: G,
        genesis_hash: BlockHash,
        old_stores: Seq<GhostdagStore>,
        new_stores: Seq<GhostdagStore>,
        p: Seq<Seq<HeaderView>>,
        n: int,
        trusted: Seq<(BlockHash, GhostdagDataView)>,
    ) -> bool {
        forall|l: int|
            0 <= l < n ==> Self::level_ghostdag_computed(
                mgr,
                genesis_hash,
                old_stores[l]@,
                #[trigger] new_stores[l]@,
                p[l],
                l,
                trusted,
            )
    }

    /// `b` is `a` but for the headers store, the reachability store and the
    /// proof-related stores: the virtual state, tips, selected chain, cache,
    /// managers and parameters are the same.
    pub open spec fn keeps_rest(a: Self, b: Self) -> bool {
        &&& b.virtual_state == a.virtual_state
        &&& b.body_tips == a.body_tips
        &&& b.headers_selected_tip == a.headers_selected_tip
        &&& b.selected_chain == a.selected_chain
        &&& b.cached_pruning_point_proof_and_anticone == a.cached_pruning_point_proof_and_anticone
        &&& b.ghostdag_managers == a.ghostdag_managers
        &&& b.traversal_manager == a.traversal_manager
        &&& b.pow == a.pow
        &&& b.pruning_proof_m == a.pruning_proof_m
        &&& b.difficulty_adjustment_window_size == a.difficulty_adjustment_window_size
        &&& b.ghostdag_k == a.ghostdag_k
    }

    pub fn new(
        headers_store: HeadersStore,
        reachability_store: ReachabilityStore,
        ghostdag_stores: Vec<GhostdagStore>,
        relations_stores: Vec<RelationsStore>,
        pruning_store: PruningStore,
        past_pruning_points_store: PastPruningPointsStore,
        ghostdag_managers: G,
        traversal_manager: T,
        pow: P,
        max_block_level: BlockLevel,
        genesis_hash: BlockHash,
        pruning_proof_m: u64,
        difficulty_adjustment_window_size: usize,
        ghostdag_k: KType,
    ) -> (r: Self)
        ensures
            r.headers_store@ == headers_store@,
            r.reachability_store@ == reachability_store@,
            r.ghostdag_stores == ghostdag_stores,
            r.relations_stores == relations_stores,
            r.pruning_store == pruning_store,
            r.past_pruning_points_store@ == past_pruning_points_store@,
            r.ghostdag_managers == ghostdag_managers,
            r.traversal_manager == traversal_manager,
            r.pow == pow,
            r.parents_manager.genesis_hash == genesis_hash,
            r.virtual_state is None,
            r.body_tips@.len() == 0,
            r.headers_selected_tip is None,
            r.selected_chain@.len() == 0,
            r.cached_pruning_point_proof_and_anticone is None,
            r.max_block_level == max_block_level,
            r.genesis_hash == genesis_hash,
            r.pruning_proof_m == pruning_proof_m,
            r.difficulty_adjustment_window_size == difficulty_adjustment_window_size,
            r.ghostdag_k == ghostdag_k,
    {
        PruningProofManager {
            headers_store,
            reachability_store,
            parents_manager: ParentsManager { genesis_hash },
            ghostdag_stores,
            relations_stores,
            pruning_store,
            past_pruning_points_store,
            virtual_state: None,
            body_tips: Vec::new(),
            headers_selected_tip: None,
            selected_chain: Vec::new(),
            ghostdag_managers,
            traversal_manager,
            pow,
            cached_pruning_point_proof_and_anticone: None,
            max_block_level,
            genesis_hash,
            pruning_proof_m,
            difficulty_adjustment_window_size,
            ghostdag_k,
        }
    }

    /// The block at `depth` blue score below `high` on its selected chain: the
    /// first chain block whose blue score is more than `depth` below that of
    /// `high`, or the last block before `ORIGIN` where there is none.
    pub fn block_at_depth(&self, ghostdag_store: &GhostdagStore, high: BlockHash, depth: u64) -> (r:
        BlockHash)
        requires
            chain_ok(ghostdag_store@, high),
            ghostdag_store@[high].blue_score + depth <= u64::MAX,
        ensures
            r == walk_to_depth(
                ghostdag_store@,
                ghostdag_store@[high].blue_score as int,
                depth as int,
                high,
            ),
    {
        let ghost g = ghostdag_store@;
        let high_gd = match ghostdag_store.get_compact_data(high) {
            Ok(d) => d,
            Err(_) => {
                assert(false);
                return high;
            },
        };
        let mut current_gd = high_gd;
        let mut current = high;
        while current_gd.blue_score + depth >= high_gd.blue_score
            invariant
                chain_ok(g, current),
                g == ghostdag_store@,
                g.contains_key(current),
                current_gd == compact_of(g[current]),
                high_gd == compact_of(g[high]),
                current_gd.blue_score <= high_gd.blue_score,
                high_gd.blue_score + depth <= u64::MAX,
                walk_to_depth(g, high_gd.blue_score as int, depth as int, current) == walk_to_depth(
                    g,
                    high_gd.blue_score as int,
                    depth as int,
                    high,
                ),
            ensures
                g.contains_key(current),
                current == walk_to_depth(g, high_gd.blue_score as int, depth as int, high),
            decreases current_gd.blue_score,
        {
            if current_gd.selected_parent == ORIGIN {
                break ;
            }
            current = current_gd.selected_parent;
            current_gd = match ghostdag_store.get_compact_data(current) {
                Ok(d) => d,
                Err(_) => {
                    assert(false);
                    return high;
                },
            };
        }
        current
    }

    /// The parents of `header` over all levels, each once.
    pub fn all_parents(&self, header: &Header) -> (r: Vec<BlockHash>)
        ensures
            r@.to_set() == all_parents(header@, self.max_block_level as int, self.parents_manager.genesis_hash),
            r@.no_duplicates(),
    {
        let mut r: Vec<BlockHash> = Vec::new();
        let mut level: u16 = 0;
        let ghost target = all_parents(header@, self.max_block_level as int, self.parents_manager.genesis_hash);
        while level <= self.max_block_level as u16
            invariant
                level <= self.max_block_level as u16 + 1,
                r@.no_duplicates(),
                r@.to_set() == Set::new(
                    |p: BlockHash|
                        exists|l: int|
                            0 <= l < level && #[trigger] spec_parents_at_level(
                                header@,
                                l,
                                self.parents_manager.genesis_hash,
                            ).contains(p),
                ),
            decreases self.max_block_level as u16 + 1 - level,
        {
            let ps = self.parents_manager.parents_at_level(header, level as BlockLevel);
            let ghost base = r@.to_set();
            let mut i: usize = 0;
            while i < ps.len()
                invariant
                    i <= ps@.len(),
                    r@.no_duplicates(),
                    r@.to_set() == base.union(ps@.take(i as int).to_set()),
                decreases ps@.len() - i,
            {
                let x = ps[i];
                let ghost prev = r@;
                if !contains_hash(&r, x) {
                    r.push(x);
                    proof {
                        lemma_push_to_set(prev, x);
                    }
                } else {
                    assert(prev.to_set().insert(x) =~= prev.to_set());
                }
                proof {
                    assert(ps@.take(i + 1) =~= ps@.take(i as int).push(x));
                    lemma_push_to_set(ps@.take(i as int), x);
                    assert(r@.to_set() =~= base.union(ps@.take(i + 1).to_set()));
                }
                i = i + 1;
            }
            proof {
                assert(ps@.take(ps@.len() as int) =~= ps@);
                assert(r@.to_set() =~= Set::new(
                    |p: BlockHash|
                        exists|l: int|
                            0 <= l < level + 1 && #[trigger] spec_parents_at_level(
                                header@,
                                l,
                                self.parents_manager.genesis_hash,
                            ).contains(p),
                )) by {
                    assert forall|p: BlockHash| r@.to_set().contains(p) <==> exists|l: int|
                            0 <= l < level + 1 && #[trigger] spec_parents_at_level(
                                header@,
                                l,
                                self.parents_manager.genesis_hash,
                            ).contains(p) by {
                        if ps@.contains(p) {
                            assert(spec_parents_at_level(header@, level as int, self.parents_manager.genesis_hash).contains(p));
                        }
                    }
                }
            }
            level = level + 1;
        }
        assert(r@.to_set() =~= target);
        r
    }

    /// Stores the first header of each hash of `flat` into the headers store,
    /// and gathers each such block with its blue work and parents.
    fn collect_dag(&mut self, flat: &Vec<Header>) -> (r: (
        std::collections::HashMap<BlockHash, DagEntry>,
        Vec<SortableBlock>,
    ))
        requires
            forall|i: int|
                0 <= i < flat@.len() ==> !old(self).headers_store@.contains_key(#[trigger] flat@[i].hash),
        ensures
            forall|h: BlockHash| #[trigger]
                r.0@.contains_key(h) <==> in_headers(headers_view(flat@), h),
            forall|h: BlockHash|
                #[trigger] r.0@.contains_key(h) ==> r.0@[h].blue_work == first_header(
                    headers_view(flat@),
                    h,
                ).blue_work && r.0@[h].parents@.to_set() == all_parents(
                    first_header(headers_view(flat@), h),
                    old(self).max_block_level as int,
                    old(self).parents_manager.genesis_hash,
                ) && r.0@[h].parents@.no_duplicates(),
            r.1@.no_duplicates(),
            forall|x: SortableBlock| #[trigger]
                r.1@.contains(x) <==> in_headers(headers_view(flat@), x.hash) && x == sortable_in(
                    headers_view(flat@),
                    x.hash,
                ),
            imports_headers(
                old(self).headers_store@,
                final(self).headers_store@,
                headers_view(flat@),
                old(self).max_block_level,
            ),
            old(self).new_headers_at_pow_level(old(self).headers_store@, final(self).headers_store@),
            final(self).max_block_level == old(self).max_block_level,
            final(self).reachability_store@ == old(self).reachability_store@,
            final(self).ghostdag_stores == old(self).ghostdag_stores,
            final(self).relations_stores == old(self).relations_stores,
            final(self).genesis_hash == old(self).genesis_hash,
            final(self).parents_manager == old(self).parents_manager,
            final(self).past_pruning_points_store@ == old(self).past_pruning_points_store@,
            final(self).pruning_store == old(self).pruning_store,
            Self::keeps_rest(*old(self), *final(self)),
    {
        broadcast use vstd::std_specs::hash::group_hash_axioms;

        let ghost hv = headers_view(flat@);
        let ghost max = self.max_block_level as int;
        let ghost gen = self.parents_manager.genesis_hash;
        let mut dag: std::collections::HashMap<BlockHash, DagEntry> = std::collections::HashMap::new();
        let mut blocks: Vec<SortableBlock> = Vec::new();
        let n = flat.len();
        let mut i: usize = 0;
        while i < n
            invariant
                n == flat@.len(),
                i <= n,
                hv == headers_view(flat@),
                max == self.max_block_level as int,
                gen == self.parents_manager.genesis_hash,
                forall|k: int|
                    0 <= k < flat@.len() ==> !old(self).headers_store@.contains_key(#[trigger] flat@[k].hash),
                forall|h: BlockHash| #[trigger]
                    dag@.contains_key(h) <==> in_headers(hv.take(i as int), h),
                forall|h: BlockHash|
                    #[trigger] dag@.contains_key(h) ==> dag@[h].blue_work == first_header(
                        hv.take(i as int),
                        h,
                    ).blue_work && dag@[h].parents@.to_set() == all_parents(
                        first_header(hv.take(i as int), h),
                        max,
                        gen,
                    ) && dag@[h].parents@.no_duplicates(),
                blocks@.no_duplicates(),
                forall|x: SortableBlock| #[trigger]
                    blocks@.contains(x) <==> in_headers(hv.take(i as int), x.hash) && x == sortable_in(
                        hv.take(i as int),
                        x.hash,
                    ),
                imports_headers(
                    old(self).headers_store@,
                    self.headers_store@,
                    hv.take(i as int),
                    old(self).max_block_level,
                ),
                old(self).new_headers_at_pow_level(old(self).headers_store@, self.headers_store@),
                forall|h: BlockHash|
                    #[trigger] self.headers_store@.contains_key(h) && !old(self).headers_store@.contains_key(h)
                        ==> in_headers(hv.take(i as int), h),
                self.max_block_level == old(self).max_block_level,
                self.reachability_store@ == old(self).reachability_store@,
                self.ghostdag_stores == old(self).ghostdag_stores,
                self.relations_stores == old(self).relations_stores,
                self.genesis_hash == old(self).genesis_hash,
                self.parents_manager == old(self).parents_manager,
                self.past_pruning_points_store@ == old(self).past_pruning_points_store@,
                self.pruning_store == old(self).pruning_store,
                Self::keeps_rest(*old(self), *self),
            decreases n - i,
        {
            let header = &flat[i];
            let ghost s0 = hv.take(i as int);
            let ghost s1 = hv.take(i + 1);
            proof {
                assert(s1 =~= s0.push(header@));
                assert(hv[i as int] == header@);
                assert forall|h: BlockHash| true implies {
                    &&& (in_headers(s0, h) ==> first_header(s1, h) == first_header(s0, h))
                    &&& (!in_headers(s0, h) && header.hash == h ==> first_header(s1, h) == header@)
                    &&& (in_headers(s1, h) <==> in_headers(s0, h) || header.hash == h)
                } by {
                    lemma_first_header_push(s0, header@, h);
                }
            }
            if !dag.contains_key(&header.hash) {
                let bits = self.pow.pow_bits(header);
                let block_level = calc_block_level(self.max_block_level, bits);
                let ghost before = self.headers_store@;
                proof {
                    assert(!before.contains_key(header.hash)) by {
                        if before.contains_key(header.hash) {
                            assert(!old(self).headers_store@.contains_key(flat@[i as int].hash));
                        }
                    }
                }
                let _ = self.headers_store.insert(header.hash, header.copy(), block_level);
                let parents = self.all_parents(header);
                let sb = SortableBlock::new(header.hash, header.blue_work);
                let ghost prev_blocks = blocks@;
                proof {
                    assert(!prev_blocks.contains(sb));
                }
                blocks.push(sb);
                dag.insert(header.hash, DagEntry { blue_work: header.blue_work, parents });
                proof {
                    let k0 = header.hash;
                    assert(hv[i as int].hash == k0);
                    assert(prev_blocks.push(sb) == blocks@);
                    assert forall|x: SortableBlock| #[trigger]
                        blocks@.contains(x) <==> in_headers(s1, x.hash) && x == sortable_in(s1, x.hash) by {
                        lemma_first_header_push(s0, header@, x.hash);
                        lemma_first_header_push(s0, header@, k0);
                        assert(!in_headers(s0, k0));
                        assert(sortable_in(s1, k0) == sb);
                        if blocks@.contains(x) {
                            let k = choose|k: int| 0 <= k < blocks@.len() && blocks@[k] == x;
                            if k < prev_blocks.len() {
                                assert(prev_blocks[k] == x);
                                assert(prev_blocks.contains(x));
                                assert(in_headers(s0, x.hash));
                                assert(x == sortable_in(s0, x.hash));
                            } else {
                                assert(x == sb);
                            }
                            assert(in_headers(s1, x.hash));
                            assert(x == sortable_in(s1, x.hash));
                        }
                        if in_headers(s1, x.hash) && x == sortable_in(s1, x.hash) {
                            if x.hash == k0 {
                                assert(blocks@[prev_blocks.len() as int] == x);
                            } else {
                                assert(prev_blocks.contains(x));
                                let k = choose|k: int| 0 <= k < prev_blocks.len() && prev_blocks[k] == x;
                                assert(blocks@[k] == x);
                            }
                        }
                    }
                    assert(blocks@.no_duplicates()) by {
                        assert forall|a: int, b: int| 0 <= a < b < blocks@.len() implies blocks@[a]
                            != blocks@[b] by {
                            if b == prev_blocks.len() {
                                assert(prev_blocks.contains(blocks@[a]));
                            } else {
                                assert(prev_blocks[a] != prev_blocks[b]);
                            }
                        }
                    }
                    assert forall|k: BlockHash| #[trigger]
                        self.headers_store@.contains_key(k) <==> old(self).headers_store@.contains_key(k)
                            || exists|j: int| 0 <= j < s1.len() && #[trigger] s1[j].hash == k by {
                        if k == k0 {
                            assert(s1[i as int].hash == k);
                        }
                        if exists|j: int| 0 <= j < s1.len() && #[trigger] s1[j].hash == k {
                            assert(in_headers(s1, k));
                            if k != k0 {
                                assert(in_headers(s0, k));
                            }
                        }
                        if exists|j: int| 0 <= j < s0.len() && #[trigger] s0[j].hash == k {
                            assert(in_headers(s0, k));
                        }
                    }
                    assert forall|k: BlockHash|
                        #[trigger] self.headers_store@.contains_key(k) && !old(self).headers_store@.contains_key(k)
                        implies exists|j: int|
                            0 <= j < s1.len() && #[trigger] s1[j].hash == k && self.headers_store@[k].0
                                == s1[j] && self.headers_store@[k].1 <= old(self).max_block_level
                                && forall|l: int| 0 <= l < j ==> s1[l].hash != k by {
                        if k == k0 {
                            assert forall|l: int| 0 <= l < i implies s1[l].hash != k by {
                                assert(s1[l] == s0[l]);
                                if s0[l].hash == k {
                                    assert(in_headers(s0, k));
                                }
                            }
                            assert(s1[i as int].hash == k);
                        } else {
                            let j = choose|j: int|
                                0 <= j < s0.len() && #[trigger] s0[j].hash == k && before[k].0 == s0[j]
                                    && before[k].1 <= old(self).max_block_level && forall|l: int|
                                    0 <= l < j ==> s0[l].hash != k;
                            assert(s1[j] == s0[j]);
                            assert forall|l: int| 0 <= l < j implies s1[l].hash != k by {
                                assert(s1[l] == s0[l]);
                            }
                        }
                    }
                }
            } else {
                proof {
                    assert forall|x: SortableBlock| #[trigger]
                        blocks@.contains(x) <==> in_headers(s1, x.hash) && x == sortable_in(s1, x.hash) by {
                        lemma_first_header_push(s0, header@, x.hash);
                        if in_headers(s1, x.hash) {
                            assert(in_headers(s0, x.hash));
                        }
                    }
                    assert forall|k: BlockHash| #[trigger]
                        self.headers_store@.contains_key(k) <==> old(self).headers_store@.contains_key(k)
                            || exists|j: int| 0 <= j < s1.len() && #[trigger] s1[j].hash == k by {
                        if exists|j: int| 0 <= j < s1.len() && #[trigger] s1[j].hash == k {
                            assert(in_headers(s1, k));
                            assert(in_headers(s0, k));
                        }
                        if exists|j: int| 0 <= j < s0.len() && #[trigger] s0[j].hash == k {
                            assert(in_headers(s0, k));
                            let j = choose|j: int| 0 <= j < s0.len() && #[trigger] s0[j].hash == k;
                            assert(s1[j].hash == k);
                        }
                    }
                    assert forall|k: BlockHash|
                        #[trigger] self.headers_store@.contains_key(k) && !old(self).headers_store@.contains_key(k)
                        implies exists|j: int|
                            0 <= j < s1.len() && #[trigger] s1[j].hash == k && self.headers_store@[k].0
                                == s1[j] && self.headers_store@[k].1 <= old(self).max_block_level
                                && forall|l: int| 0 <= l < j ==> s1[l].hash != k by {
                        let j = choose|j: int|
                            0 <= j < s0.len() && #[trigger] s0[j].hash == k && self.headers_store@[k].0
                                == s0[j] && self.headers_store@[k].1 <= old(self).max_block_level
                                && forall|l: int| 0 <= l < j ==> s0[l].hash != k;
                        assert(s1[j] == s0[j]);
                        assert forall|l: int| 0 <= l < j implies s1[l].hash != k by {
                            assert(s1[l] == s0[l]);
                        }
                    }
                }
            }
            i = i + 1;
        }
        proof {
            assert(hv.take(n as int) =~= hv);
        }
        (dag, blocks)
    }

    /// Adds the proof block `b` to the reachability store: its selected parent
    /// is its largest parent in the proof, and its mergeset the parents that
    /// are not in the past of a larger one.
    fn add_proof_block(
        &mut self,
        dag: &std::collections::HashMap<BlockHash, DagEntry>,
        b: SortableBlock,
        Ghost(s): Ghost<Seq<HeaderView>>,
    )
        requires
            reach_wf(old(self).reachability_store@),
            forall|h: BlockHash| #[trigger] dag@.contains_key(h) <==> in_headers(s, h),
            forall|h: BlockHash|
                #[trigger] dag@.contains_key(h) ==> dag@[h].blue_work == first_header(s, h).blue_work
                    && dag@[h].parents@.to_set() == all_parents(
                    first_header(s, h),
                    old(self).max_block_level as int,
                    old(self).parents_manager.genesis_hash,
                ) && dag@[h].parents@.no_duplicates(),
            in_headers(s, b.hash),
            b == sortable_in(s, b.hash),
            !old(self).reachability_store@.contains_key(b.hash),
            forall|p: BlockHash|
                #[trigger] dag_parents(
                    s,
                    b.hash,
                    old(self).max_block_level as int,
                    old(self).parents_manager.genesis_hash,
                ).contains(p) ==> old(self).reachability_store@.contains_key(p) && sortable_lt(
                    sortable_in(s, p),
                    b,
                ),
        ensures
            reach_wf(final(self).reachability_store@),
            final(self).reachability_store@ == old(self).reachability_store@.insert(
                b.hash,
                final(self).reachability_store@[b.hash],
            ),
            proof_block_reachability(
                final(self).reachability_store@,
                s,
                b.hash,
                old(self).max_block_level as int,
                old(self).parents_manager.genesis_hash,
            ),
            final(self).headers_store@ == old(self).headers_store@,
            final(self).max_block_level == old(self).max_block_level,
            final(self).ghostdag_stores == old(self).ghostdag_stores,
            final(self).relations_stores == old(self).relations_stores,
            final(self).genesis_hash == old(self).genesis_hash,
            final(self).parents_manager == old(self).parents_manager,
            final(self).past_pruning_points_store@ == old(self).past_pruning_points_store@,
            final(self).pruning_store == old(self).pruning_store,
            Self::keeps_rest(*old(self), *final(self)),
    {
        broadcast use vstd::std_specs::hash::group_hash_axioms;

        let ghost m = self.reachability_store@;
        let ghost dp = dag_parents(
            s,
            b.hash,
            self.max_block_level as int,
            self.parents_manager.genesis_hash,
        );
        let parents = match dag.get(&b.hash) {
            Some(e) => copy_hashes(&e.parents),
            None => {
                assert(false);
                Vec::new()
            },
        };
        let ghost ps = parents@;
        assert(ps.to_set() == all_parents(
            first_header(s, b.hash),
            self.max_block_level as int,
            self.parents_manager.genesis_hash,
        ));
        let mut pin: Vec<SortableBlock> = Vec::new();
        let mut i: usize = 0;
        while i < parents.len()
            invariant
                i <= ps.len(),
                ps == parents@,
                ps.no_duplicates(),
                forall|h: BlockHash| #[trigger] dag@.contains_key(h) <==> in_headers(s, h),
                forall|h: BlockHash|
                    #[trigger] dag@.contains_key(h) ==> dag@[h].blue_work == first_header(
                        s,
                        h,
                    ).blue_work,
                pin@.no_duplicates(),
                forall|x: SortableBlock| #[trigger]
                    pin@.contains(x) <==> exists|k: int|
                        0 <= k < i && in_headers(s, #[trigger] ps[k]) && x == sortable_in(s, ps[k]),
            decreases ps.len() - i,
        {
            let p = parents[i];
            let ghost prev = pin@;
            match dag.get(&p) {
                Some(pe) => {
                    let x = SortableBlock::new(p, pe.blue_work);
                    proof {
                        assert(!prev.contains(x)) by {
                            if prev.contains(x) {
                                let k = choose|k: int|
                                    0 <= k < i && in_headers(s, #[trigger] ps[k]) && x == sortable_in(
                                        s,
                                        ps[k],
                                    );
                                assert(ps[k] != ps[i as int]);
                            }
                        }
                    }
                    pin.push(x);
                    proof {
                        assert(x == sortable_in(s, ps[i as int]));
                        assert forall|a: int, c: int| 0 <= a < c < pin@.len() implies pin@[a]
                            != pin@[c] by {
                            if c == prev.len() {
                                assert(prev.contains(pin@[a]));
                            } else {
                                assert(prev[a] != prev[c]);
                            }
                        }
                        assert forall|y: SortableBlock| #[trigger]
                            pin@.contains(y) <==> exists|k: int|
                                0 <= k < i + 1 && in_headers(s, #[trigger] ps[k]) && y == sortable_in(
                                    s,
                                    ps[k],
                                ) by {
                            if pin@.contains(y) {
                                let a = choose|a: int| 0 <= a < pin@.len() && pin@[a] == y;
                                if a < prev.len() {
                                    assert(prev.contains(y));
                                } else {
                                    assert(y == x);
                                }
                            }
                            if exists|k: int|
                                0 <= k < i + 1 && in_headers(s, #[trigger] ps[k]) && y == sortable_in(
                                    s,
                                    ps[k],
                                ) {
                                let k = choose|k: int|
                                    0 <= k < i + 1 && in_headers(s, #[trigger] ps[k]) && y
                                        == sortable_in(s, ps[k]);
                                if k < i {
                                    assert(prev.contains(y));
                                    let a = choose|a: int| 0 <= a < prev.len() && prev[a] == y;
                                    assert(pin@[a] == y);
                                } else {
                                    assert(pin@[prev.len() as int] == y);
                                }
                            }
                        }
                    }
                },
                None => {
                    proof {
                        assert(!in_headers(s, p));
                        assert forall|y: SortableBlock| #[trigger]
                            pin@.contains(y) <==> exists|k: int|
                                0 <= k < i + 1 && in_headers(s, #[trigger] ps[k]) && y == sortable_in(
                                    s,
                                    ps[k],
                                ) by {
                            if exists|k: int|
                                0 <= k < i + 1 && in_headers(s, #[trigger] ps[k]) && y == sortable_in(
                                    s,
                                    ps[k],
                                ) {
                                let k = choose|k: int|
                                    0 <= k < i + 1 && in_headers(s, #[trigger] ps[k]) && y
                                        == sortable_in(s, ps[k]);
                                assert(k != i);
                            }
                        }
                    }
                },
            }
            i = i + 1;
        }
        proof {
            assert forall|x: SortableBlock| #[trigger]
                pin@.contains(x) <==> dp.contains(x.hash) && x == sortable_in(s, x.hash) by {
                if pin@.contains(x) {
                    let k = choose|k: int|
                        0 <= k < ps.len() && in_headers(s, #[trigger] ps[k]) && x == sortable_in(s, ps[k]);
                    assert(ps.to_set().contains(ps[k]));
                }
                if dp.contains(x.hash) && x == sortable_in(s, x.hash) {
                    assert(ps.to_set().contains(x.hash));
                    let k = choose|k: int| 0 <= k < ps.len() && ps[k] == x.hash;
                    assert(in_headers(s, ps[k]));
                }
            }
        }
        let sorted_pin = sort_blocks_ascending(&pin);
        let n = sorted_pin.len();
        proof {
            assert forall|k: int| 0 <= k < n implies #[trigger] dp.contains(sorted_pin@[k].hash)
                && sorted_pin@[k] == sortable_in(s, sorted_pin@[k].hash) && m.contains_key(
                sorted_pin@[k].hash,
            ) by {
                assert(sorted_pin@.to_set().contains(sorted_pin@[k]));
                assert(pin@.contains(sorted_pin@[k]));
            }
        }
        let mut fake: Vec<SortableBlock> = Vec::new();
        let mut fake_hashes: Vec<BlockHash> = Vec::new();
        let mut j: usize = n;
        while j > 0
            invariant
                j <= n,
                n == sorted_pin@.len(),
                self.reachability_store@ == m,
                reach_wf(m),
                strictly_sorted(sorted_pin@),
                forall|k: int| 0 <= k < n ==> #[trigger] dp.contains(sorted_pin@[k].hash)
                    && sorted_pin@[k] == sortable_in(s, sorted_pin@[k].hash) && m.contains_key(
                    sorted_pin@[k].hash,
                ),
                fake_hashes@.len() == fake@.len(),
                forall|k: int| 0 <= k < fake@.len() ==> #[trigger] fake_hashes@[k] == fake@[k].hash,
                forall|k: int| 0 <= k < fake@.len() ==> sorted_pin@.contains(#[trigger] fake@[k]),
                forall|k: int|
                    j <= k < n ==> fake_hashes@.contains(#[trigger] sorted_pin@[k].hash) || exists|f: int|
                        0 <= f < fake_hashes@.len() && #[trigger] m[fake_hashes@[f]].ancestors.contains(
                            sorted_pin@[k].hash,
                        ),
                j < n ==> fake@.len() > 0 && fake@[0] == sorted_pin@[n - 1],
                j == n ==> fake@.len() == 0,
            decreases j,
        {
            j = j - 1;
            let parent = sorted_pin[j];
            proof {
                assert forall|k: int| 0 <= k < fake_hashes@.len() implies m.contains_key(
                    #[trigger] fake_hashes@[k],
                ) by {
                    let a = choose|a: int| 0 <= a < n && sorted_pin@[a] == fake@[k];
                    assert(dp.contains(sorted_pin@[a].hash));
                    assert(m.contains_key(sorted_pin@[a].hash));
                }
            }
            if self.reachability_store.is_dag_ancestor_of_any(parent.hash, &fake_hashes) {
                continue ;
            }
            let ghost prev_f = fake@;
            let ghost prev_fh = fake_hashes@;
            fake.push(parent);
            fake_hashes.push(parent.hash);
            proof {
                assert(fake_hashes@[prev_fh.len() as int] == parent.hash);
                assert forall|k: int|
                    j <= k < n implies fake_hashes@.contains(#[trigger] sorted_pin@[k].hash) || exists|f: int|
                        0 <= f < fake_hashes@.len() && #[trigger] m[fake_hashes@[f]].ancestors.contains(
                            sorted_pin@[k].hash,
                        ) by {
                    if k == j {
                        assert(fake_hashes@[prev_fh.len() as int] == sorted_pin@[k].hash);
                    } else if prev_fh.contains(sorted_pin@[k].hash) {
                        let a = choose|a: int| 0 <= a < prev_fh.len() && prev_fh[a] == sorted_pin@[k].hash;
                        assert(fake_hashes@[a] == sorted_pin@[k].hash);
                    } else {
                        let f = choose|f: int|
                            0 <= f < prev_fh.len() && #[trigger] m[prev_fh[f]].ancestors.contains(
                                sorted_pin@[k].hash,
                            );
                        assert(fake_hashes@[f] == prev_fh[f]);
                    }
                }
                assert forall|k: int| 0 <= k < fake@.len() implies sorted_pin@.contains(#[trigger] fake@[k]) by {
                    if k < prev_f.len() {
                        assert(prev_f[k] == fake@[k]);
                    } else {
                        assert(sorted_pin@[j as int] == fake@[k]);
                    }
                }
                if j + 1 < n {
                    assert(fake@[0] == prev_f[0]);
                }
            }
        }
        let selected_parent = if fake.len() == 0 {
            ORIGIN
        } else {
            let mut best = fake[0];
            let mut k: usize = 1;
            while k < fake.len()
                invariant
                    1 <= k <= fake@.len(),
                    forall|a: int| 0 <= a < fake@.len() ==> sorted_pin@.contains(#[trigger] fake@[a]),
                    sorted_pin@.contains(best),
                    sortable_le(fake@[0], best),
                decreases fake@.len() - k,
            {
                if best.less_than(&fake[k]) {
                    best = fake[k];
                }
                k = k + 1;
            }
            best.hash
        };
        proof {
            assert forall|k: int| 0 <= k < fake_hashes@.len() implies m.contains_key(
                #[trigger] fake_hashes@[k],
            ) && dp.contains(fake_hashes@[k]) by {
                let a = choose|a: int| 0 <= a < n && sorted_pin@[a] == fake@[k];
                assert(dp.contains(sorted_pin@[a].hash));
                assert(m.contains_key(sorted_pin@[a].hash));
            }
            lemma_union_ancestors(m, fake_hashes@);
            assert(!dp.contains(b.hash)) by {
                if dp.contains(b.hash) {
                    assert(sortable_lt(sortable_in(s, b.hash), b));
                }
            }
            if n > 0 {
                assert(m.contains_key(selected_parent));
                assert(dp.contains(selected_parent));
                assert forall|p: BlockHash| #[trigger] dp.contains(p) implies sortable_le(
                    sortable_in(s, p),
                    sortable_in(s, selected_parent),
                ) by {
                    assert(pin@.contains(sortable_in(s, p)));
                    assert(sorted_pin@.to_set().contains(sortable_in(s, p)));
                    let a = choose|a: int| 0 <= a < n && sorted_pin@[a] == sortable_in(s, p);
                    let bi = choose|bi: int| 0 <= bi < n && sorted_pin@[bi] == sortable_in(
                        s,
                        selected_parent,
                    );
                    if a < n - 1 {
                        assert(sortable_lt(sorted_pin@[a], sorted_pin@[n - 1]));
                    }
                    if bi < n - 1 {
                        assert(sortable_lt(sorted_pin@[bi], sorted_pin@[n - 1]));
                    }
                }
            } else {
                assert(dp =~= Set::<BlockHash>::empty()) by {
                    assert forall|p: BlockHash| !dp.contains(p) by {
                        if dp.contains(p) {
                            assert(pin@.contains(sortable_in(s, p)));
                            assert(sorted_pin@.to_set().contains(sortable_in(s, p)));
                        }
                    }
                }
            }
            assert(union_ancestors(m, fake_hashes@) =~= union_over(m, dp)) by {
                assert forall|x: BlockHash| #[trigger] union_over(m, dp).contains(x) implies union_ancestors(
                    m,
                    fake_hashes@,
                ).contains(x) by {
                    let p = choose|p: BlockHash| dp.contains(p) && #[trigger] m[p].ancestors.contains(x);
                    assert(pin@.contains(sortable_in(s, p)));
                    assert(sorted_pin@.to_set().contains(sortable_in(s, p)));
                    let a = choose|a: int| 0 <= a < n && sorted_pin@[a] == sortable_in(s, p);
                    assert(sorted_pin@[a].hash == p);
                    if fake_hashes@.contains(p) {
                        let f = choose|f: int| 0 <= f < fake_hashes@.len() && fake_hashes@[f] == p;
                        assert(m[fake_hashes@[f]].ancestors.contains(x));
                    } else {
                        let f = choose|f: int|
                            0 <= f < fake_hashes@.len() && #[trigger] m[fake_hashes@[f]].ancestors.contains(
                                sorted_pin@[a].hash,
                            );
                        assert(m[p].ancestors.subset_of(m[fake_hashes@[f]].ancestors));
                    }
                }
                assert forall|x: BlockHash| #[trigger] union_ancestors(m, fake_hashes@).contains(x)
                    implies union_over(m, dp).contains(x) by {
                    let f = choose|f: int|
                        0 <= f < fake_hashes@.len() && #[trigger] m[fake_hashes@[f]].ancestors.contains(x);
                    assert(dp.contains(fake_hashes@[f]));
                }
            }
        }
        self.reachability_store.add_block(b.hash, selected_parent, &fake_hashes);
        proof {
            let m2 = self.reachability_store@;
            assert(selected_parent != b.hash);
            assert(union_over(m2, dp) =~= union_over(m, dp)) by {
                assert forall|x: BlockHash| union_over(m2, dp).contains(x) <==> union_over(m, dp).contains(x) by {
                    if union_over(m2, dp).contains(x) {
                        let p = choose|p: BlockHash| dp.contains(p) && #[trigger] m2[p].ancestors.contains(x);
                        assert(m2[p] == m[p]);
                    }
                    if union_over(m, dp).contains(x) {
                        let p = choose|p: BlockHash| dp.contains(p) && #[trigger] m[p].ancestors.contains(x);
                        assert(m2[p] == m[p]);
                    }
                }
            }
            assert(m2[selected_parent] == m[selected_parent]);
            assert(m2[b.hash].ancestors =~= m2[selected_parent].ancestors.union(union_over(m2, dp)).insert(
                b.hash,
            ));
        }
    }

    /// Stores the headers of a proof and adds its blocks to the reachability
    /// store in ascending order of blue work (then hash): each block under its
    /// largest parent in the proof, its past the past of its parents in the
    /// proof (`ORIGIN` where it has none).
    #[verifier::rlimit(60)]
    pub fn populate_reachability(&mut self, proof: &PruningPointProof)
        requires
            old(self).inv(),
            concat_levels(proof_view(proof@)).len() > 0,
            proof_parents_precede(
                concat_levels(proof_view(proof@)),
                old(self).max_block_level as int,
                old(self).genesis_hash,
            ),
            forall|i: int|
                0 <= i < concat_levels(proof_view(proof@)).len() ==> !old(self).headers_store@.contains_key(
                    #[trigger] concat_levels(proof_view(proof@))[i].hash,
                ) && !old(self).reachability_store@.contains_key(
                    concat_levels(proof_view(proof@))[i].hash,
                ),
        ensures
            final(self).inv(),
            imports_headers(
                old(self).headers_store@,
                final(self).headers_store@,
                concat_levels(proof_view(proof@)),
                old(self).max_block_level,
            ),
            old(self).new_headers_at_pow_level(old(self).headers_store@, final(self).headers_store@),
            forall|h: BlockHash| #[trigger]
                final(self).reachability_store@.contains_key(h) <==> old(self).reachability_store@.contains_key(h)
                    || in_headers(concat_levels(proof_view(proof@)), h),
            forall|h: BlockHash|
                #[trigger] old(self).reachability_store@.contains_key(h) ==> final(self).reachability_store@[h]
                    == old(self).reachability_store@[h],
            forall|b: BlockHash|
                #[trigger] in_headers(concat_levels(proof_view(proof@)), b) ==> proof_block_reachability(
                    final(self).reachability_store@,
                    concat_levels(proof_view(proof@)),
                    b,
                    old(self).max_block_level as int,
                    old(self).genesis_hash,
                ),
            final(self).max_block_level == old(self).max_block_level,
            final(self).ghostdag_stores == old(self).ghostdag_stores,
            final(self).relations_stores == old(self).relations_stores,
            final(self).genesis_hash == old(self).genesis_hash,
            final(self).parents_manager == old(self).parents_manager,
            final(self).past_pruning_points_store@ == old(self).past_pruning_points_store@,
            final(self).pruning_store == old(self).pruning_store,
            Self::keeps_rest(*old(self), *final(self)),
    {
        let ghost s = concat_levels(proof_view(proof@));
        let ghost max = self.max_block_level as int;
        let ghost gen = self.genesis_hash;
        let ghost old_reach = self.reachability_store@;
        let flat = flatten_proof(proof);
        assert(headers_view(flat@) == s);
        assert forall|i: int| 0 <= i < flat@.len() implies !self.headers_store@.contains_key(
            #[trigger] flat@[i].hash,
        ) by {
            assert(s[i] == flat@[i]@);
            assert(!old(self).headers_store@.contains_key(s[i].hash));
        }
        let (dag, blocks) = self.collect_dag(&flat);
        let sorted = sort_blocks_ascending(&blocks);
        let n = sorted.len();
        proof {
            assert forall|k: int| 0 <= k < n implies #[trigger] in_headers(s, sorted@[k].hash)
                && sorted@[k] == sortable_in(s, sorted@[k].hash) by {
                assert(sorted@.to_set().contains(sorted@[k]));
                assert(blocks@.contains(sorted@[k]));
            }
            assert forall|h: BlockHash| in_headers(s, h) implies exists|k: int|
                0 <= k < n && #[trigger] sorted@[k] == sortable_in(s, h) by {
                assert(blocks@.contains(sortable_in(s, h)));
                assert(sorted@.to_set().contains(sortable_in(s, h)));
            }
        }
        let mut t: usize = 0;
        while t < n
            invariant
                t <= n,
                n == sorted@.len(),
                s == concat_levels(proof_view(proof@)),
                max == self.max_block_level as int,
                gen == self.genesis_hash,
                gen == self.parents_manager.genesis_hash,
                strictly_sorted(sorted@),
                proof_parents_precede(s, max, gen),
                forall|k: int| 0 <= k < n ==> #[trigger] in_headers(s, sorted@[k].hash)
                    && sorted@[k] == sortable_in(s, sorted@[k].hash),
                forall|h: BlockHash|
                    in_headers(s, h) ==> exists|k: int| 0 <= k < n && #[trigger] sorted@[k] == sortable_in(s, h),
                forall|h: BlockHash| #[trigger] dag@.contains_key(h) <==> in_headers(s, h),
                forall|h: BlockHash|
                    #[trigger] dag@.contains_key(h) ==> dag@[h].blue_work == first_header(s, h).blue_work
                        && dag@[h].parents@.to_set() == all_parents(first_header(s, h), max, gen)
                        && dag@[h].parents@.no_duplicates(),
                forall|i: int|
                    0 <= i < s.len() ==> !old_reach.contains_key(#[trigger] s[i].hash),
                reach_wf(self.reachability_store@),
                forall|h: BlockHash| #[trigger]
                    self.reachability_store@.contains_key(h) <==> old_reach.contains_key(h) || exists|k: int|
                        0 <= k < t && #[trigger] sorted@[k].hash == h,
                forall|h: BlockHash|
                    #[trigger] old_reach.contains_key(h) ==> self.reachability_store@[h] == old_reach[h],
                forall|k: int|
                    0 <= k < t ==> proof_block_reachability(
                        self.reachability_store@,
                        s,
                        #[trigger] sorted@[k].hash,
                        max,
                        gen,
                    ),
                imports_headers(
                    old(self).headers_store@,
                    self.headers_store@,
                    s,
                    old(self).max_block_level,
                ),
                old(self).new_headers_at_pow_level(old(self).headers_store@, self.headers_store@),
                old_reach == old(self).reachability_store@,
                old_reach.contains_key(ORIGIN),
                self.max_block_level == old(self).max_block_level,
                self.ghostdag_stores == old(self).ghostdag_stores,
                self.relations_stores == old(self).relations_stores,
                self.genesis_hash == old(self).genesis_hash,
                self.parents_manager == old(self).parents_manager,
                self.past_pruning_points_store@ == old(self).past_pruning_points_store@,
                self.pruning_store == old(self).pruning_store,
                Self::keeps_rest(*old(self), *self),
            decreases n - t,
        {
            let b = sorted[t];
            let ghost m = self.reachability_store@;
            proof {
                assert(in_headers(s, b.hash));
                assert(!m.contains_key(b.hash)) by {
                    if m.contains_key(b.hash) {
                        if old_reach.contains_key(b.hash) {
                            let i = choose|i: int| 0 <= i < s.len() && #[trigger] s[i].hash == b.hash;
                            assert(!old_reach.contains_key(s[i].hash));
                        } else {
                            let k = choose|k: int| 0 <= k < t && #[trigger] sorted@[k].hash == b.hash;
                            assert(sorted@[k] == sortable_in(s, b.hash));
                            assert(sortable_lt(sorted@[k], sorted@[t as int]));
                        }
                    }
                }
                assert forall|p: BlockHash|
                    #[trigger] dag_parents(s, b.hash, max, gen).contains(p) implies m.contains_key(p)
                        && sortable_lt(sortable_in(s, p), b) by {
                    assert(sortable_lt(sortable_in(s, p), sortable_in(s, b.hash)));
                    assert(in_headers(s, p));
                    let k = choose|k: int| 0 <= k < n && #[trigger] sorted@[k] == sortable_in(s, p);
                    if k >= t {
                        if k > t {
                            assert(sortable_lt(sorted@[t as int], sorted@[k]));
                        }
                        assert(false);
                    }
                    assert(sorted@[k].hash == p);
                }
            }
            self.add_proof_block(&dag, b, Ghost(s));
            proof {
                let m2 = self.reachability_store@;
                assert forall|k: int| 0 <= k < t + 1 implies proof_block_reachability(
                    m2,
                    s,
                    #[trigger] sorted@[k].hash,
                    max,
                    gen,
                ) by {
                    if k < t {
                        let bk = sorted@[k].hash;
                        let dp = dag_parents(s, bk, max, gen);
                        assert(proof_block_reachability(m, s, bk, max, gen));
                        assert(bk != b.hash) by {
                            assert(sortable_lt(sorted@[k], sorted@[t as int]));
                        }
                        let sp = m[bk].selected_parent;
                        assert(!dp.contains(b.hash)) by {
                            if dp.contains(b.hash) {
                                assert(in_headers(s, bk));
                                assert(dag_parents(s, bk, max, gen).contains(b.hash));
                                assert(sorted@[k] == sortable_in(s, bk));
                                assert(sorted@[t as int] == sortable_in(s, b.hash));
                                assert(sortable_lt(sortable_in(s, b.hash), sortable_in(s, bk)));
                                assert(sortable_lt(sorted@[k], sorted@[t as int]));
                            }
                        }
                        assert(m.contains_key(bk));
                        assert(bk != ORIGIN) by {
                            assert(in_headers(s, sorted@[k].hash));
                            let i = choose|i: int| 0 <= i < s.len() && #[trigger] s[i].hash == bk;
                            assert(!old_reach.contains_key(s[i].hash));
                        }
                        assert(sp != b.hash) by {
                            if sp == b.hash {
                                assert(!m.contains_key(b.hash));
                                assert(dp.contains(sp) || sp == ORIGIN);
                                assert(m.contains_key(ORIGIN));
                            }
                        }
                        assert(m2[bk] == m[bk]);
                        assert(m2[sp] == m[sp]);
                        assert(union_over(m2, dp) =~= union_over(m, dp)) by {
                            assert forall|x: BlockHash| union_over(m2, dp).contains(x) <==> union_over(m, dp).contains(x) by {
                                if union_over(m2, dp).contains(x) {
                                    let p = choose|p: BlockHash| dp.contains(p) && #[trigger] m2[p].ancestors.contains(x);
                                    assert(m2[p] == m[p]);
                                }
                                if union_over(m, dp).contains(x) {
                                    let p = choose|p: BlockHash| dp.contains(p) && #[trigger] m[p].ancestors.contains(x);
                                    assert(m2[p] == m[p]);
                                }
                            }
                        }
                    }
                }
                assert forall|h: BlockHash| #[trigger]
                    m2.contains_key(h) <==> old_reach.contains_key(h) || exists|k: int|
                        0 <= k < t + 1 && #[trigger] sorted@[k].hash == h by {
                    if h == b.hash {
                        assert(sorted@[t as int].hash == h);
                    }
                    if exists|k: int| 0 <= k < t + 1 && #[trigger] sorted@[k].hash == h {
                        let k = choose|k: int| 0 <= k < t + 1 && #[trigger] sorted@[k].hash == h;
                        if k < t {
                            assert(m.contains_key(h));
                        }
                    }
                }
                assert forall|h: BlockHash|
                    #[trigger] old_reach.contains_key(h) implies m2[h] == old_reach[h] by {
                    assert(h != b.hash);
                }
            }
            t = t + 1;
        }
        proof {
            let m2 = self.reachability_store@;
            assert forall|h: BlockHash| #[trigger]
                m2.contains_key(h) <==> old_reach.contains_key(h) || in_headers(s, h) by {
                if in_headers(s, h) {
                    let k = choose|k: int| 0 <= k < n && #[trigger] sorted@[k] == sortable_in(s, h);
                    assert(sorted@[k].hash == h);
                }
                if exists|k: int| 0 <= k < n && #[trigger] sorted@[k].hash == h {
                    let k = choose|k: int| 0 <= k < n && #[trigger] sorted@[k].hash == h;
                    assert(in_headers(s, sorted@[k].hash));
                }
            }
            assert forall|bb: BlockHash| #[trigger] in_headers(s, bb) implies proof_block_reachability(
                m2,
                s,
                bb,
                max,
                gen,
            ) by {
                let k = choose|k: int| 0 <= k < n && #[trigger] sorted@[k] == sortable_in(s, bb);
                assert(sorted@[k].hash == bb);
            }
        }
    }

    /// Applies the headers of one level: records `ORIGIN` and then each header
    /// in order, with its parents at the level that have GHOSTDAG data
    /// (`ORIGIN` where none has), and its GHOSTDAG data.
    #[verifier::rlimit(60)]
    fn apply_level(
        &mut self,
        level: usize,
        headers: &Vec<Header>,
        trusted_map: &std::collections::HashMap<BlockHash, GhostdagData>,
        Ghost(trusted): Ghost<Seq<(BlockHash, GhostdagDataView)>>,
    )
        requires
            old(self).inv(),
            level <= old(self).max_block_level,
            forall|h: BlockHash| #[trigger]
                trusted_map@.contains_key(h) <==> trusted_gd(trusted, h) is Some,
            forall|h: BlockHash|
                #[trigger] trusted_map@.contains_key(h) ==> Some(trusted_map@[h]@) == trusted_gd(
                    trusted,
                    h,
                ),
            !old(self).ghostdag_stores@[level as int]@.contains_key(ORIGIN),
            old(self).relations_stores@[level as int]@.contains_key(ORIGIN),
            parents_have_relations(
                old(self).ghostdag_stores@[level as int]@,
                old(self).relations_stores@[level as int]@,
                headers_view(headers@),
                level as int,
                old(self).genesis_hash,
            ),
            forall|i: int|
                0 <= i < headers@.len() ==> #[trigger] headers@[i].hash != ORIGIN
                    && !old(self).ghostdag_stores@[level as int]@.contains_key(headers@[i].hash)
                    && !old(self).relations_stores@[level as int]@.contains_key(headers@[i].hash),
            forall|i: int, j: int|
                0 <= i < j < headers@.len() ==> #[trigger] headers@[i].hash
                    != #[trigger] headers@[j].hash,
        ensures
            final(self).inv(),
            final(self).ghostdag_stores@ == old(self).ghostdag_stores@.update(
                level as int,
                final(self).ghostdag_stores@[level as int],
            ),
            final(self).relations_stores@ == old(self).relations_stores@.update(
                level as int,
                final(self).relations_stores@[level as int],
            ),
            ghostdag_applied(
                old(self).ghostdag_stores@[level as int]@,
                final(self).ghostdag_stores@[level as int]@,
                headers_view(headers@),
                level as int,
                old(self).genesis_hash,
                trusted,
            ),
            final(self).relations_stores@[level as int]@ == relations_after(
                old(self).relations_stores@[level as int]@,
                old(self).ghostdag_stores@[level as int]@.dom(),
                headers_view(headers@),
                headers@.len() as int,
                level as int,
                old(self).genesis_hash,
            ),
            final(self).headers_store@ == old(self).headers_store@,
            final(self).reachability_store@ == old(self).reachability_store@,
            final(self).max_block_level == old(self).max_block_level,
            final(self).genesis_hash == old(self).genesis_hash,
            final(self).parents_manager == old(self).parents_manager,
            final(self).past_pruning_points_store@ == old(self).past_pruning_points_store@,
            final(self).pruning_store == old(self).pruning_store,
            Self::keeps_rest(*old(self), *final(self)),
            Self::level_ghostdag_computed(
                old(self).ghostdag_managers,
                old(self).genesis_hash,
                old(self).ghostdag_stores@[level as int]@,
                final(self).ghostdag_stores@[level as int]@,
                headers_view(headers@),
                level as int,
                trusted,
            ),
    {
        broadcast use vstd::std_specs::hash::group_hash_axioms;

        let ghost lh = headers_view(headers@);
        let ghost g0 = self.ghostdag_stores@[level as int]@;
        let ghost r0 = self.relations_stores@[level as int]@;
        let ghost gen = self.genesis_hash;
        let ghost stores0 = self.ghostdag_stores@;
        let ghost rels0 = self.relations_stores@;
        let origin_data = self.ghostdag_managers.origin_ghostdag_data(level);
        proof {
            assert(Self::origin_of(self.ghostdag_managers, level as int, origin_data@));
        }
        let res = self.ghostdag_stores[level].insert(ORIGIN, origin_data);
        proof {
            assert(lh.len() == headers@.len());
            assert(level_known(g0.dom(), lh, 0) =~= g0.dom().insert(ORIGIN));
            assert(self.ghostdag_stores@[level as int]@.dom() =~= g0.dom().insert(ORIGIN));
        }
        let n = headers.len();
        let mut i: usize = 0;
        while i < n
            invariant
                n == headers@.len(),
                n == lh.len(),
                i <= n,
                lh == headers_view(headers@),
                level <= self.max_block_level,
                self.inv(),
                gen == self.genesis_hash,
                gen == self.parents_manager.genesis_hash,
                forall|h: BlockHash| #[trigger]
                    trusted_map@.contains_key(h) <==> trusted_gd(trusted, h) is Some,
                forall|h: BlockHash|
                    #[trigger] trusted_map@.contains_key(h) ==> Some(trusted_map@[h]@) == trusted_gd(
                        trusted,
                        h,
                    ),
                r0.contains_key(ORIGIN),
                parents_have_relations(g0, r0, lh, level as int, gen),
                forall|k: int|
                    0 <= k < n ==> #[trigger] headers@[k].hash != ORIGIN && !g0.contains_key(
                        headers@[k].hash,
                    ) && !r0.contains_key(headers@[k].hash),
                forall|a: int, b: int|
                    0 <= a < b < n ==> #[trigger] headers@[a].hash != #[trigger] headers@[b].hash,
                stores0.len() == self.max_block_level as int + 1,
                rels0.len() == self.max_block_level as int + 1,
                self.ghostdag_stores@ == stores0.update(level as int, self.ghostdag_stores@[level as int]),
                self.relations_stores@ == rels0.update(level as int, self.relations_stores@[level as int]),
                self.ghostdag_stores@[level as int]@.dom() == level_known(g0.dom(), lh, i as int),
                forall|h: BlockHash| #[trigger] g0.contains_key(h) ==> self.ghostdag_stores@[level as int]@[h] == g0[h],
                forall|k: int|
                    0 <= k < i && level == 0 && #[trigger] lh[k].hash != gen ==> match trusted_gd(
                        trusted,
                        lh[k].hash,
                    ) {
                        Some(d) => self.ghostdag_stores@[level as int]@[lh[k].hash] == d,
                        None => self.ghostdag_stores@[level as int]@[lh[k].hash].blue_score
                            == lh[k].blue_score && self.ghostdag_stores@[level as int]@[lh[k].hash].blue_work
                            == lh[k].blue_work,
                    },
                self.relations_stores@[level as int]@ == relations_after(r0, g0.dom(), lh, i as int, level as int, gen),
                forall|h: BlockHash| #[trigger]
                    self.relations_stores@[level as int]@.contains_key(h) <==> r0.contains_key(h) || exists|k: int|
                        0 <= k < i && #[trigger] lh[k].hash == h,
                self.headers_store@ == old(self).headers_store@,
                self.reachability_store@ == old(self).reachability_store@,
                self.max_block_level == old(self).max_block_level,
                self.genesis_hash == old(self).genesis_hash,
                Self::keeps_rest(*old(self), *self),
                self.parents_manager == old(self).parents_manager,
                self.past_pruning_points_store@ == old(self).past_pruning_points_store@,
                self.pruning_store == old(self).pruning_store,
                self.ghostdag_stores@[level as int]@.contains_key(ORIGIN),
                Self::origin_of(old(self).ghostdag_managers, level as int, self.ghostdag_stores@[level as int]@[ORIGIN]),
                forall|k: int|
                    0 <= k < i ==> #[trigger] Self::computed_data(
                        old(self).ghostdag_managers,
                        gen,
                        self.ghostdag_stores@[level as int]@.restrict(level_known(g0.dom(), lh, k)),
                        applied_parents(g0.dom(), lh, k, level as int, gen),
                        lh[k],
                        level as int,
                        trusted,
                        self.ghostdag_stores@[level as int]@[lh[k].hash],
                    ),
            decreases n - i,
        {
            let header = &headers[i];
            let ghost known = level_known(g0.dom(), lh, i as int);
            proof {
                assert(lh[i as int] == header@);
            }
            let ps = self.parents_manager.parents_at_level(header, level as BlockLevel);
            let mut parents: Vec<BlockHash> = Vec::new();
            let mut k: usize = 0;
            while k < ps.len()
                invariant
                    k <= ps@.len(),
                    known == self.ghostdag_stores@[level as int]@.dom(),
                    level < self.ghostdag_stores@.len(),
                    parents@ == keep_known(ps@.take(k as int), known),
                decreases ps@.len() - k,
            {
                let p = ps[k];
                proof {
                    assert(ps@.take(k + 1).drop_last() =~= ps@.take(k as int));
                    assert(ps@.take(k + 1).last() == p);
                }
                if self.ghostdag_stores[level].has(p) {
                    parents.push(p);
                }
                k = k + 1;
            }
            proof {
                assert(ps@.take(ps@.len() as int) =~= ps@);
            }
            if parents.len() == 0 {
                parents.push(ORIGIN);
                assert(parents@ =~= seq![ORIGIN]);
            }
            let ghost pv = parents@;
            proof {
                assert(pv == applied_parents(g0.dom(), lh, i as int, level as int, gen));
            }
            let rel_parents = copy_hashes(&parents);
            let ghost rel_before = self.relations_stores@[level as int]@;
            proof {
                assert(!rel_before.contains_key(header.hash)) by {
                    if rel_before.contains_key(header.hash) {
                        if !r0.contains_key(header.hash) {
                            let k = choose|k: int| 0 <= k < i && #[trigger] lh[k].hash == header.hash;
                            assert(headers@[k].hash != headers@[i as int].hash);
                        }
                    }
                }
                lemma_keep_known(ps@, known);
                assert forall|j: int| 0 <= j < pv.len() implies #[trigger] pv[j] == header.hash
                    || rel_before.contains_key(pv[j]) by {
                    let x = pv[j];
                    if x != ORIGIN {
                        assert(known.contains(x));
                        assert(ps@.contains(x));
                        if g0.contains_key(x) {
                            assert(spec_parents_at_level(lh[i as int], level as int, gen).contains(x));
                            assert(r0.contains_key(x));
                        }
                        if !g0.contains_key(x) {
                            let k = choose|k: int| 0 <= k < i && #[trigger] lh[k].hash == x;
                            assert(rel_before.contains_key(lh[k].hash));
                        }
                    }
                }
                lemma_with_child_dom(rel_before.insert(header.hash, (pv, Seq::empty())), pv, header.hash);
            }
            let ghost rs_before = self.relations_stores@;
            let rres = self.relations_stores[level].insert(header.hash, rel_parents);
            assert(self.relations_stores@ == rs_before.update(level as int, self.relations_stores@[level as int]));
            match rres {
                Ok(_) => {},
                Err(_) => {
                    assert(false);
                },
            }
            let ghost kn = self.ghostdag_stores@[level as int]@;
            let gd = if header.hash == self.genesis_hash {
                let d = self.ghostdag_managers.genesis_ghostdag_data(level);
                proof {
                    assert(Self::genesis_of(self.ghostdag_managers, level as int, d@));
                }
                d
            } else if level == 0 {
                match trusted_map.get(&header.hash) {
                    Some(d) => d.copy(),
                    None => {
                        let calculated = self.ghostdag_managers.ghostdag(
                            level,
                            &self.ghostdag_stores[level],
                            &parents,
                        );
                        proof {
                            assert(Self::ghostdag_of(self.ghostdag_managers, level as int, kn, pv, calculated@));
                        }
                        let d = GhostdagData {
                            blue_score: header.blue_score,
                            blue_work: header.blue_work,
                            selected_parent: calculated.selected_parent,
                            mergeset_blues: calculated.mergeset_blues,
                            mergeset_reds: calculated.mergeset_reds,
                            blues_anticone_sizes: calculated.blues_anticone_sizes,
                        };
                        proof {
                            assert(d@ == with_header_work(calculated@, header@));
                        }
                        d
                    },
                }
            } else {
                let d = self.ghostdag_managers.ghostdag(level, &self.ghostdag_stores[level], &parents);
                proof {
                    assert(Self::ghostdag_of(self.ghostdag_managers, level as int, kn, pv, d@));
                }
                d
            };
            let ghost g_before = self.ghostdag_stores@[level as int]@;
            proof {
                assert(!g_before.contains_key(header.hash)) by {
                    if g_before.contains_key(header.hash) {
                        if !g0.contains_key(header.hash) && header.hash != ORIGIN {
                            let k = choose|k: int| 0 <= k < i && #[trigger] lh[k].hash == header.hash;
                            assert(headers@[k].hash != headers@[i as int].hash);
                        }
                    }
                }
            }
            let ghost gdv = gd@;
            proof {
                if header.hash != gen && level == 0 {
                    match trusted_gd(trusted, header.hash) {
                        Some(d) => {
                            assert(trusted_map@.contains_key(header.hash));
                            assert(gdv == d);
                        },
                        None => {
                            assert(!trusted_map@.contains_key(header.hash));
                            assert(gdv.blue_score == header.blue_score);
                        },
                    }
                }
            }
            let ghost gs_before = self.ghostdag_stores@;
            assert(gs_before =~= stores0.update(level as int, gs_before[level as int]));
            let gres = self.ghostdag_stores[level].insert(header.hash, gd);
            assert(self.ghostdag_stores@ == gs_before.update(level as int, self.ghostdag_stores@[level as int]));
            match gres {
                Ok(_) => {},
                Err(_) => {
                    assert(false);
                },
            }
            proof {
                let g2 = self.ghostdag_stores@[level as int]@;
                assert(g2 == g_before.insert(header.hash, gdv));
                assert(self.ghostdag_stores@ =~= stores0.update(level as int, self.ghostdag_stores@[level as int]));
                assert(self.relations_stores@ =~= rels0.update(level as int, self.relations_stores@[level as int]));
                assert(g2.dom() =~= level_known(g0.dom(), lh, i + 1)) by {
                    assert forall|h: BlockHash| g2.dom().contains(h) <==> level_known(g0.dom(), lh, i + 1).contains(h) by {
                        if h == header.hash {
                            assert(lh[i as int].hash == h);
                        }
                        if exists|j: int| 0 <= j < i + 1 && #[trigger] lh[j].hash == h {
                            let j = choose|j: int| 0 <= j < i + 1 && #[trigger] lh[j].hash == h;
                            if j < i {
                                assert(known.contains(h));
                            }
                        }
                        if exists|j: int| 0 <= j < i && #[trigger] lh[j].hash == h {
                            let j = choose|j: int| 0 <= j < i && #[trigger] lh[j].hash == h;
                            assert(lh[j].hash == h);
                        }
                    }
                }
                assert forall|h: BlockHash| #[trigger] g0.contains_key(h) implies g2[h] == g0[h] by {
                    assert(h != header.hash);
                }
                assert(g_before == kn);
                assert(g2.restrict(level_known(g0.dom(), lh, i as int)) =~= kn);
                assert forall|k: int| 0 <= k < i + 1 implies #[trigger] Self::computed_data(
                    old(self).ghostdag_managers,
                    gen,
                    g2.restrict(level_known(g0.dom(), lh, k)),
                    applied_parents(g0.dom(), lh, k, level as int, gen),
                    lh[k],
                    level as int,
                    trusted,
                    g2[lh[k].hash],
                ) by {
                    if k < i {
                        assert(lh[k].hash != header.hash) by {
                            assert(headers@[k].hash != headers@[i as int].hash);
                        }
                        assert(!level_known(g0.dom(), lh, k).contains(header.hash)) by {
                            if level_known(g0.dom(), lh, k).contains(header.hash) {
                                if !g0.contains_key(header.hash) && header.hash != ORIGIN {
                                    let j = choose|j: int| 0 <= j < k && #[trigger] lh[j].hash == header.hash;
                                    assert(headers@[j].hash != headers@[i as int].hash);
                                }
                            }
                        }
                        assert(g2.restrict(level_known(g0.dom(), lh, k)) =~= g_before.restrict(
                            level_known(g0.dom(), lh, k),
                        ));
                    } else {
                        assert(lh[k] == header@);
                        assert(g2[lh[k].hash] == gdv);
                        if header.hash != gen && level == 0 {
                            match trusted_gd(trusted, header.hash) {
                                Some(d) => {},
                                None => {},
                            }
                        }
                    }
                }
                assert(g2[ORIGIN] == g_before[ORIGIN]);
                assert forall|k: int|
                    0 <= k < i + 1 && level == 0 && #[trigger] lh[k].hash != gen implies match trusted_gd(
                        trusted,
                        lh[k].hash,
                    ) {
                        Some(d) => g2[lh[k].hash] == d,
                        None => g2[lh[k].hash].blue_score == lh[k].blue_score && g2[lh[k].hash].blue_work
                            == lh[k].blue_work,
                    } by {
                    if k < i {
                        assert(headers@[k].hash != headers@[i as int].hash);
                        assert(lh[k].hash != header.hash);
                    }
                }
                let r2 = self.relations_stores@[level as int]@;
                assert forall|h: BlockHash| #[trigger]
                    r2.contains_key(h) <==> r0.contains_key(h) || exists|k: int|
                        0 <= k < i + 1 && #[trigger] lh[k].hash == h by {
                    if h == header.hash {
                        assert(lh[i as int].hash == h);
                    }
                    if exists|j: int| 0 <= j < i + 1 && #[trigger] lh[j].hash == h {
                        let j = choose|j: int| 0 <= j < i + 1 && #[trigger] lh[j].hash == h;
                        if j < i {
                            assert(rel_before.contains_key(h));
                        }
                    }
                }
            }
            i = i + 1;
        }
        proof {
            assert(self.ghostdag_stores@ =~= stores0.update(level as int, self.ghostdag_stores@[level as int]));
        }
    }

    /// The inputs on which applying `proof` with `trusted` succeeds: each
    /// level fits a store, level zero is not empty, the parents of each block
    /// in the proof order before it, no block of the proof is known yet, no
    /// level holds a block twice, and each level's relations know `ORIGIN` and
    /// each parent (at that level) of the level's headers that has GHOSTDAG
    /// data, and each level has no GHOSTDAG data for `ORIGIN` yet.
    pub open spec fn can_apply_proof(&self, proof: Seq<Seq<HeaderView>>, trusted: Seq<HeaderView>) -> bool {
        let p = applied_proof(proof, trusted);
        let s = concat_levels(p);
        &&& 1 <= proof.len() <= self.max_block_level as int + 1
        &&& proof[0].len() >= 1
        &&& proof_parents_precede(s, self.max_block_level as int, self.genesis_hash)
        &&& forall|i: int|
            0 <= i < s.len() ==> !self.headers_store@.contains_key(#[trigger] s[i].hash)
                && !self.reachability_store@.contains_key(s[i].hash)
        &&& forall|l: int|
            0 <= l < proof.len() ==> {
                &&& !#[trigger] self.ghostdag_stores@[l]@.contains_key(ORIGIN)
                &&& self.relations_stores@[l]@.contains_key(ORIGIN)
                &&& parents_have_relations(
                    self.ghostdag_stores@[l]@,
                    self.relations_stores@[l]@,
                    p[l],
                    l,
                    self.genesis_hash,
                )
                &&& forall|i: int|
                    0 <= i < p[l].len() ==> #[trigger] p[l][i].hash != ORIGIN
                        && !self.ghostdag_stores@[l]@.contains_key(p[l][i].hash)
                        && !self.relations_stores@[l]@.contains_key(p[l][i].hash)
                &&& forall|i: int, j: int|
                    0 <= i < j < p[l].len() ==> #[trigger] p[l][i].hash != #[trigger] p[l][j].hash
            }
    }

    proof fn lemma_can_apply_level(&self, proof: Seq<Seq<HeaderView>>, trusted: Seq<HeaderView>, l: int)
        requires
            self.can_apply_proof(proof, trusted),
            0 <= l < proof.len(),
        ensures
            !self.ghostdag_stores@[l]@.contains_key(ORIGIN),
            self.relations_stores@[l]@.contains_key(ORIGIN),
            parents_have_relations(
                self.ghostdag_stores@[l]@,
                self.relations_stores@[l]@,
                applied_proof(proof, trusted)[l],
                l,
                self.genesis_hash,
            ),
            forall|i: int|
                0 <= i < applied_proof(proof, trusted)[l].len() ==> #[trigger] applied_proof(
                    proof,
                    trusted,
                )[l][i].hash != ORIGIN && !self.ghostdag_stores@[l]@.contains_key(
                    applied_proof(proof, trusted)[l][i].hash,
                ) && !self.relations_stores@[l]@.contains_key(
                    applied_proof(proof, trusted)[l][i].hash,
                ),
            forall|i: int, j: int|
                0 <= i < j < applied_proof(proof, trusted)[l].len() ==> #[trigger] applied_proof(
                    proof,
                    trusted,
                )[l][i].hash != #[trigger] applied_proof(proof, trusted)[l][j].hash,
    {
        assert(!self.ghostdag_stores@[l]@.contains_key(ORIGIN));
    }

    /// Applies a pruning point proof with the trusted blocks that come with it:
    /// adds the trusted headers that level zero lacks, sorts level zero by
    /// blue work, stores the headers and the reachability of all proof blocks,
    /// records each level's relations and GHOSTDAG data, and makes the pruning
    /// point (the last header of level zero as given) the only virtual parent,
    /// body tip, headers selected tip and selected chain block.
    #[verifier::rlimit(60)]
    #[verifier::spinoff_prover]
    pub fn apply_proof(&mut self, proof: PruningPointProof, trusted_set: &Vec<TrustedBlock>)
        requires
            old(self).inv(),
            old(self).can_apply_proof(proof_view(proof@), trusted_headers_view(trusted_set@)),
        ensures
            final(self).inv(),
            imports_headers(
                old(self).headers_store@,
                final(self).headers_store@,
                concat_levels(applied_proof(proof_view(proof@), trusted_headers_view(trusted_set@))),
                old(self).max_block_level,
            ),
            old(self).new_headers_at_pow_level(old(self).headers_store@, final(self).headers_store@),
            forall|h: BlockHash| #[trigger]
                final(self).reachability_store@.contains_key(h) <==> old(self).reachability_store@.contains_key(h)
                    || in_headers(
                    concat_levels(applied_proof(proof_view(proof@), trusted_headers_view(trusted_set@))),
                    h,
                ),
            forall|h: BlockHash|
                #[trigger] old(self).reachability_store@.contains_key(h) ==> final(self).reachability_store@[h]
                    == old(self).reachability_store@[h],
            forall|b: BlockHash|
                #[trigger] in_headers(
                    concat_levels(applied_proof(proof_view(proof@), trusted_headers_view(trusted_set@))),
                    b,
                ) ==> proof_block_reachability(
                    final(self).reachability_store@,
                    concat_levels(applied_proof(proof_view(proof@), trusted_headers_view(trusted_set@))),
                    b,
                    old(self).max_block_level as int,
                    old(self).genesis_hash,
                ),
            levels_applied(
                old(self).ghostdag_stores@,
                final(self).ghostdag_stores@,
                old(self).relations_stores@,
                final(self).relations_stores@,
                applied_proof(proof_view(proof@), trusted_headers_view(trusted_set@)),
                proof@.len() as int,
                old(self).genesis_hash,
                trusted_data_view(trusted_set@),
            ),
            levels_unchanged(
                old(self).ghostdag_stores@,
                final(self).ghostdag_stores@,
                old(self).relations_stores@,
                final(self).relations_stores@,
                proof@.len() as int,
            ),
            final(self).virtual_state is Some,
            final(self).virtual_state->Some_0.parents@ == seq![proof@[0]@.last().hash],
            Self::levels_ghostdag_computed(
                old(self).ghostdag_managers,
                old(self).genesis_hash,
                old(self).ghostdag_stores@,
                final(self).ghostdag_stores@,
                applied_proof(proof_view(proof@), trusted_headers_view(trusted_set@)),
                proof@.len() as int,
                trusted_data_view(trusted_set@),
            ),
            Self::ghostdag_of(
                old(self).ghostdag_managers,
                0,
                final(self).ghostdag_stores@[0]@,
                seq![proof@[0]@.last().hash],
                final(self).virtual_state->Some_0.ghostdag_data@,
            ),
            final(self).virtual_state->Some_0.daa_score == 0,
            final(self).virtual_state->Some_0.bits == 0,
            final(self).virtual_state->Some_0.accepted_tx_ids@.len() == 0,
            final(self).virtual_state->Some_0.past_median_time == 0,
            final(self).cached_pruning_point_proof_and_anticone
                == old(self).cached_pruning_point_proof_and_anticone,
            final(self).body_tips@ == seq![proof@[0]@.last().hash],
            final(self).headers_selected_tip == Some(
                SortableBlock { hash: proof@[0]@.last().hash, blue_work: proof@[0]@.last().blue_work },
            ),
            final(self).selected_chain@ == seq![proof@[0]@.last().hash],
            final(self).max_block_level == old(self).max_block_level,
            final(self).genesis_hash == old(self).genesis_hash,
            final(self).past_pruning_points_store@ == old(self).past_pruning_points_store@,
            final(self).pruning_store == old(self).pruning_store,
    {
        broadcast use vstd::std_specs::hash::group_hash_axioms;

        let ghost pv = proof_view(proof@);
        let ghost th = trusted_headers_view(trusted_set@);
        let ghost td = trusted_data_view(trusted_set@);
        let ghost p = applied_proof(pv, th);
        let mut levels = proof;
        let last = levels[0].len() - 1;
        let pruning_point_header = levels[0][last].copy();
        let pruning_point = pruning_point_header.hash;
        let mut proof_zero_set: Vec<BlockHash> = Vec::new();
        let mut k: usize = 0;
        while k < levels[0].len()
            invariant
                levels@.len() >= 1,
                k <= levels@[0]@.len(),
                forall|x: BlockHash| #[trigger] proof_zero_set@.contains(x) <==> exists|j: int|
                    0 <= j < k && #[trigger] levels@[0]@[j].hash == x,
            decreases levels@[0]@.len() - k,
        {
            let ghost prev = proof_zero_set@;
            proof_zero_set.push(levels[0][k].hash);
            proof {
                assert forall|x: BlockHash| #[trigger] proof_zero_set@.contains(x) <==> exists|j: int|
                    0 <= j < k + 1 && #[trigger] levels@[0]@[j].hash == x by {
                    lemma_push_to_set(prev, levels@[0]@[k as int].hash);
                    assert(proof_zero_set@.to_set().contains(x) == proof_zero_set@.contains(x));
                    if exists|j: int| 0 <= j < k + 1 && #[trigger] levels@[0]@[j].hash == x {
                        let j = choose|j: int| 0 <= j < k + 1 && #[trigger] levels@[0]@[j].hash == x;
                        if j < k {
                            assert(prev.contains(x));
                        }
                    }
                }
            }
            k = k + 1;
        }
        proof {
            assert forall|x: BlockHash| #[trigger] proof_zero_set@.contains(x) <==> in_headers(pv[0], x) by {
                if proof_zero_set@.contains(x) {
                    let j = choose|j: int| 0 <= j < levels@[0]@.len() && #[trigger] levels@[0]@[j].hash == x;
                    assert(pv[0][j].hash == x);
                }
                if in_headers(pv[0], x) {
                    let j = choose|j: int| 0 <= j < pv[0].len() && #[trigger] pv[0][j].hash == x;
                    assert(levels@[0]@[j].hash == x);
                }
            }
        }
        let mut merged = copy_headers(&levels[0]);
        let mut trusted_map: std::collections::HashMap<BlockHash, GhostdagData> = std::collections::HashMap::new();
        let mut t: usize = 0;
        while t < trusted_set.len()
            invariant
                t <= trusted_set@.len(),
                levels@.len() >= 1,
                pv == proof_view(levels@),
                th == trusted_headers_view(trusted_set@),
                td == trusted_data_view(trusted_set@),
                forall|x: BlockHash| #[trigger] proof_zero_set@.contains(x) <==> in_headers(pv[0], x),
                headers_view(merged@) == merged_level_zero(pv[0], th.take(t as int)),
                forall|h: BlockHash| #[trigger]
                    trusted_map@.contains_key(h) <==> trusted_gd(td.take(t as int), h) is Some,
                forall|h: BlockHash|
                    #[trigger] trusted_map@.contains_key(h) ==> Some(trusted_map@[h]@) == trusted_gd(
                        td.take(t as int),
                        h,
                    ),
            decreases trusted_set@.len() - t,
        {
            let tb = &trusted_set[t];
            proof {
                assert(th.take(t + 1).drop_last() =~= th.take(t as int));
                assert(th.take(t + 1).last() == tb.header@);
                assert(td.take(t + 1).drop_last() =~= td.take(t as int));
                assert(td.take(t + 1).last() == (tb.header.hash, tb.ghostdag@));
            }
            trusted_map.insert(tb.header.hash, tb.ghostdag.copy());
            if !contains_hash(&proof_zero_set, tb.header.hash) {
                let ghost prev = headers_view(merged@);
                merged.push(tb.header.copy());
                assert(headers_view(merged@) =~= prev.push(tb.header@));
            }
            t = t + 1;
        }
        proof {
            assert(th.take(trusted_set@.len() as int) =~= th);
            assert(td.take(trusted_set@.len() as int) =~= td);
        }
        let sorted = sort_headers_by_work(&merged);
        levels[0] = sorted;
        proof {
            assert(proof_view(levels@) =~= p);
            lemma_merged_level_zero_len(pv[0], th);
            lemma_sort_by_work_len(merged_level_zero(pv[0], th));
            lemma_concat_levels_len(p);
        }
        self.populate_reachability(&levels);
        let ghost after_populate = self.ghostdag_stores@;
        let ghost rels_after_populate = self.relations_stores@;
        let mut level: usize = 0;
        while level < levels.len()
            invariant
                level <= levels@.len(),
                proof_view(levels@) == p,
                p == applied_proof(pv, th),
                pv == proof_view(proof@),
                th == trusted_headers_view(trusted_set@),
                td == trusted_data_view(trusted_set@),
                p.len() == pv.len(),
                self.inv(),
                old(self).inv(),
                old(self).can_apply_proof(pv, th),
                self.max_block_level == old(self).max_block_level,
                self.genesis_hash == old(self).genesis_hash,
                forall|h: BlockHash| #[trigger]
                    trusted_map@.contains_key(h) <==> trusted_gd(td, h) is Some,
                forall|h: BlockHash|
                    #[trigger] trusted_map@.contains_key(h) ==> Some(trusted_map@[h]@) == trusted_gd(td, h),
                self.ghostdag_stores@.len() == old(self).ghostdag_stores@.len(),
                self.relations_stores@.len() == old(self).relations_stores@.len(),
                forall|l: int|
                    level <= l < old(self).ghostdag_stores@.len() ==> #[trigger] self.ghostdag_stores@[l]
                        == old(self).ghostdag_stores@[l] && self.relations_stores@[l]
                        == old(self).relations_stores@[l],
                forall|l: int|
                    0 <= l < level ==> ghostdag_applied(
                        old(self).ghostdag_stores@[l]@,
                        #[trigger] self.ghostdag_stores@[l]@,
                        p[l],
                        l,
                        old(self).genesis_hash,
                        td,
                    ) && self.relations_stores@[l]@ == relations_after(
                        old(self).relations_stores@[l]@,
                        old(self).ghostdag_stores@[l]@.dom(),
                        p[l],
                        p[l].len() as int,
                        l,
                        old(self).genesis_hash,
                    ),
                imports_headers(
                    old(self).headers_store@,
                    self.headers_store@,
                    concat_levels(p),
                    old(self).max_block_level,
                ),
                old(self).new_headers_at_pow_level(old(self).headers_store@, self.headers_store@),
                forall|h: BlockHash| #[trigger]
                    self.reachability_store@.contains_key(h) <==> old(self).reachability_store@.contains_key(h)
                        || in_headers(concat_levels(p), h),
                forall|h: BlockHash|
                    #[trigger] old(self).reachability_store@.contains_key(h) ==> self.reachability_store@[h]
                        == old(self).reachability_store@[h],
                forall|b: BlockHash|
                    #[trigger] in_headers(concat_levels(p), b) ==> proof_block_reachability(
                        self.reachability_store@,
                        concat_levels(p),
                        b,
                        old(self).max_block_level as int,
                        old(self).genesis_hash,
                    ),
                self.past_pruning_points_store@ == old(self).past_pruning_points_store@,
                self.pruning_store == old(self).pruning_store,
                self.cached_pruning_point_proof_and_anticone
                    == old(self).cached_pruning_point_proof_and_anticone,
                self.ghostdag_managers == old(self).ghostdag_managers,
                Self::levels_ghostdag_computed(
                    old(self).ghostdag_managers,
                    old(self).genesis_hash,
                    old(self).ghostdag_stores@,
                    self.ghostdag_stores@,
                    p,
                    level as int,
                    td,
                ),
            decreases levels@.len() - level,
        {
            proof {
                let l = level as int;
                assert(p[l] == headers_view(levels@[l]@));
                assert(self.ghostdag_stores@[l] == old(self).ghostdag_stores@[l]);
                assert(!old(self).ghostdag_stores@[l]@.contains_key(ORIGIN));
                old(self).lemma_can_apply_level(pv, th, l);
                let og = old(self).ghostdag_stores@[l]@;
                let orl = old(self).relations_stores@[l]@;
                assert(self.relations_stores@[l] == old(self).relations_stores@[l]);
                assert(p[l].len() == levels@[l]@.len());
                assert forall|i: int|
                    0 <= i < levels@[l]@.len() implies #[trigger] levels@[l]@[i].hash != ORIGIN
                        && !self.ghostdag_stores@[l]@.contains_key(levels@[l]@[i].hash)
                        && !self.relations_stores@[l]@.contains_key(levels@[l]@[i].hash) by {
                    assert(p[l][i].hash == levels@[l]@[i].hash);
                    assert(p == applied_proof(pv, th));
                    assert(0 <= i < applied_proof(pv, th)[l].len());
                    assert(applied_proof(pv, th)[l][i].hash != ORIGIN);
                    assert(p[l][i].hash != ORIGIN && !og.contains_key(p[l][i].hash) && !orl.contains_key(p[l][i].hash));
                }
                assert forall|i: int, j: int|
                    0 <= i < j < levels@[l]@.len() implies #[trigger] levels@[l]@[i].hash
                        != #[trigger] levels@[l]@[j].hash by {
                    assert(p[l][i].hash == levels@[l]@[i].hash);
                    assert(p[l][j].hash == levels@[l]@[j].hash);
                    assert(p[l][i].hash != p[l][j].hash);
                }
            }
            let ghost gs_b = self.ghostdag_stores@;
            let ghost rs_b = self.relations_stores@;
            self.apply_level(level, &levels[level], &trusted_map, Ghost(td));
            proof {
                assert forall|l: int| 0 <= l < level + 1 implies ghostdag_applied(
                        old(self).ghostdag_stores@[l]@,
                        #[trigger] self.ghostdag_stores@[l]@,
                        p[l],
                        l,
                        old(self).genesis_hash,
                        td,
                    ) && self.relations_stores@[l]@ == relations_after(
                        old(self).relations_stores@[l]@,
                        old(self).ghostdag_stores@[l]@.dom(),
                        p[l],
                        p[l].len() as int,
                        l,
                        old(self).genesis_hash,
                    ) by {
                    if l < level {
                        assert(self.ghostdag_stores@[l] == gs_b[l]);
                        assert(self.relations_stores@[l] == rs_b[l]);
                        assert(ghostdag_applied(
                            old(self).ghostdag_stores@[l]@,
                            gs_b[l]@,
                            p[l],
                            l,
                            old(self).genesis_hash,
                            td,
                        ));
                    } else {
                        assert(l == level as int);
                        assert(gs_b[l] == old(self).ghostdag_stores@[l]);
                        assert(rs_b[l] == old(self).relations_stores@[l]);
                        assert(p[l] == headers_view(levels@[l]@));
                    }
                }
                assert forall|l: int|
                    level + 1 <= l < old(self).ghostdag_stores@.len() implies #[trigger] self.ghostdag_stores@[l]
                        == old(self).ghostdag_stores@[l] && self.relations_stores@[l]
                        == old(self).relations_stores@[l] by {
                    assert(self.ghostdag_stores@[l] == gs_b[l]);
                    assert(self.relations_stores@[l] == rs_b[l]);
                    assert(gs_b[l] == old(self).ghostdag_stores@[l]);
                }
                assert forall|l: int| 0 <= l < level + 1 implies Self::level_ghostdag_computed(
                    old(self).ghostdag_managers,
                    old(self).genesis_hash,
                    old(self).ghostdag_stores@[l]@,
                    #[trigger] self.ghostdag_stores@[l]@,
                    p[l],
                    l,
                    td,
                ) by {
                    if l < level {
                        assert(self.ghostdag_stores@[l] == gs_b[l]);
                    } else {
                        assert(gs_b[l] == old(self).ghostdag_stores@[l]);
                        assert(p[l] == headers_view(levels@[l]@));
                    }
                }
            }
            level = level + 1;
        }
        proof {
            assert(levels@.len() == proof@.len());
        }
        let ghost final_stores = self.ghostdag_stores@;
        let ghost final_rels = self.relations_stores@;
        let mut virtual_parents: Vec<BlockHash> = Vec::new();
        virtual_parents.push(pruning_point);
        let virtual_gd = self.ghostdag_managers.ghostdag(0, &self.ghostdag_stores[0], &virtual_parents);
        proof {
            assert(virtual_parents@ =~= seq![pruning_point]);
            assert(Self::ghostdag_of(
                self.ghostdag_managers,
                0,
                self.ghostdag_stores@[0]@,
                virtual_parents@,
                virtual_gd@,
            ));
        }
        self.virtual_state = Some(
            VirtualState {
                parents: copy_hashes(&virtual_parents),
                ghostdag_data: virtual_gd,
                daa_score: 0,
                bits: 0,
                accepted_tx_ids: Vec::new(),
                past_median_time: 0,
            },
        );
        self.body_tips = copy_hashes(&virtual_parents);
        self.headers_selected_tip = Some(SortableBlock::new(pruning_point, pruning_point_header.blue_work));
        let mut chain: Vec<BlockHash> = Vec::new();
        chain.push(pruning_point);
        self.selected_chain = chain;
        proof {
            assert(self.ghostdag_stores@ == final_stores);
            assert(self.relations_stores@ == final_rels);
            assert(p == applied_proof(proof_view(proof@), trusted_headers_view(trusted_set@)));
            assert(td == trusted_data_view(trusted_set@));
            assert forall|l: int|
                proof@.len() <= l < old(self).ghostdag_stores@.len() implies #[trigger] self.ghostdag_stores@[l]
                    == old(self).ghostdag_stores@[l] && self.relations_stores@[l]
                    == old(self).relations_stores@[l] by {
                assert(final_stores[l] == old(self).ghostdag_stores@[l]);
            }
            assert(levels_unchanged(
                old(self).ghostdag_stores@,
                final_stores,
                old(self).relations_stores@,
                final_rels,
                proof@.len() as int,
            ));
            assert(levels_applied(
                old(self).ghostdag_stores@,
                final_stores,
                old(self).relations_stores@,
                final_rels,
                p,
                proof@.len() as int,
                old(self).genesis_hash,
                td,
            ));
            assert(virtual_parents@ =~= seq![pruning_point]);
            assert(self.selected_chain@ =~= seq![pruning_point]);
        }
    }

    /// The headers of the blocks of the future of `root` at `level` that are in
    /// the past of `selected_tip`: a traversal from `root` along child edges,
    /// always taking the queued block of least blue work (then hash) next,
    /// that keeps each block of the past of `selected_tip` once and does not
    /// go beyond the blocks outside that past.
    pub fn collect_level_headers(&self, level: usize, root: BlockHash, selected_tip: BlockHash) -> (r:
        Vec<Header>)
        requires
            self.inv(),
            level <= self.max_block_level,
            rel_wf(self.relations_stores@[level as int]@),
            self.relations_stores@[level as int]@.contains_key(root),
            forall|h: BlockHash|
                #[trigger] self.relations_stores@[level as int]@.contains_key(h)
                    ==> self.ghostdag_stores@[level as int]@.contains_key(h),
            self.reachability_store@.contains_key(selected_tip),
            headers_keyed(self.headers_store@),
            forall|h: BlockHash|
                #[trigger] reachable_within(
                    self.relations_stores@[level as int]@,
                    self.reachability_store@[selected_tip].ancestors,
                    root,
                    h,
                ) ==> self.headers_store@.contains_key(h),
        ensures
            level_headers_ok(
                self.relations_stores@[level as int]@,
                self.ghostdag_stores@[level as int]@,
                self.reachability_store@[selected_tip].ancestors,
                self.headers_store@,
                root,
                headers_view(r@),
            ),
    {
        let ghost rel = self.relations_stores@[level as int]@;
        let ghost g = self.ghostdag_stores@[level as int]@;
        let ghost past = self.reachability_store@[selected_tip].ancestors;
        let ghost hs = self.headers_store@;
        let mut headers: Vec<Header> = Vec::new();
        let mut queue: Vec<SortableBlock> = Vec::new();
        let mut visited: Vec<BlockHash> = Vec::new();
        queue.push(SortableBlock::new(root, Self::blue_work_of(&self.ghostdag_stores[level], root)));
        proof {
            self.relations_stores@[level as int].lemma_dom_finite();
            assert(queue@[0].hash == root);
            assert(headers_view(headers@) =~= Seq::<HeaderView>::empty());
            assert(bfs_env(rel, g, past, hs, root));
            assert(bfs_inv(rel, g, past, hs, root, queue@, visited@, headers_view(headers@)));
            assert(queue@ =~= seq![sortable_at(g, root)]);
        }
        while queue.len() > 0
            invariant
                level < self.relations_stores@.len(),
                level < self.ghostdag_stores@.len(),
                rel == self.relations_stores@[level as int]@,
                g == self.ghostdag_stores@[level as int]@,
                past == self.reachability_store@[selected_tip].ancestors,
                hs == self.headers_store@,
                self.reachability_store@.contains_key(selected_tip),
                bfs_env(rel, g, past, hs, root),
                bfs_inv(rel, g, past, hs, root, queue@, visited@, headers_view(headers@)),
                visited@.len() == 0 ==> queue@ == seq![sortable_at(g, root)],
                headers@.len() > 0 ==> headers@[0].hash == root,
                visited@.len() > 0 && past.contains(root) ==> headers@.len() > 0,
            decreases rel.dom().len() - visited@.len(), queue@.len(),
        {
            proof {
                visited@.unique_seq_to_set();
                assert(visited@.to_set().subset_of(rel.dom()));
                vstd::set_lib::lemma_len_subset(visited@.to_set(), rel.dom());
            }
            let ghost q0 = queue@;
            let ghost v0 = visited@;
            let ghost o0 = headers_view(headers@);
            let popped = pop_min(&mut queue);
            let current = popped.hash;
            let ghost q1 = queue@;
            proof {
                lemma_bfs_after_pop(rel, g, past, hs, root, q0, q1, popped, v0, o0);
            }
            if contains_hash(&visited, current) {
                proof {
                    lemma_bfs_skip_visited(rel, g, past, hs, root, q0, q1, popped, v0, o0);
                }
                continue ;
            }
            visited.push(current);
            proof {
                assert(!v0.contains(current));
                assert(v0.push(current).to_set().len() == v0.to_set().len() + 1) by {
                    lemma_push_to_set(v0, current);
                }
            }
            if !self.reachability_store.is_dag_ancestor_of(current, selected_tip) {
                proof {
                    lemma_bfs_visit_outside(rel, g, past, hs, root, q0, q1, popped, v0, o0);
                    visited@.unique_seq_to_set();
                    assert(visited@.to_set().subset_of(rel.dom()));
                    vstd::set_lib::lemma_len_subset(visited@.to_set(), rel.dom());
                }
                continue ;
            }
            proof {
                lemma_bfs_popped_reachable(rel, g, past, hs, root, q0, v0, o0, popped);
            }
            let header = match self.headers_store.get_header(current) {
                Ok(h) => h,
                Err(_) => {
                    assert(false);
                    return headers;
                },
            };
            let ghost hv = header@;
            headers.push(header);
            let children = match self.relations_stores[level].get_children(current) {
                Ok(c) => c,
                Err(_) => {
                    assert(false);
                    return headers;
                },
            };
            let mut ci: usize = 0;
            while ci < children.len()
                invariant
                    ci <= children@.len(),
                    level < self.ghostdag_stores@.len(),
                    g == self.ghostdag_stores@[level as int]@,
                    children@ == rel[current].1,
                    rel.contains_key(current),
                    rel_wf(rel),
                    forall|h: BlockHash| #[trigger] rel.contains_key(h) ==> g.contains_key(h),
                    queue@.len() == q1.len() + ci,
                    forall|k: int| 0 <= k < q1.len() ==> queue@[k] == q1[k],
                    forall|k: int| 0 <= k < ci ==> queue@[q1.len() + k] == sortable_at(g, #[trigger] children@[k]),
                decreases children@.len() - ci,
            {
                let c = children[ci];
                proof {
                    assert(rel[current].1.contains(c));
                }
                queue.push(SortableBlock::new(c, Self::blue_work_of(&self.ghostdag_stores[level], c)));
                ci = ci + 1;
            }
            proof {
                assert(headers_view(headers@) =~= o0.push(hv));
                lemma_bfs_visit_output(rel, g, past, hs, root, q0, q1, queue@, popped, v0, o0, hv);
                visited@.unique_seq_to_set();
                assert(visited@.to_set().subset_of(rel.dom()));
                vstd::set_lib::lemma_len_subset(visited@.to_set(), rel.dom());
            }
        }
        proof {
            let out = headers_view(headers@);
            let outs = Set::new(|x: BlockHash| exists|i: int| 0 <= i < out.len() && #[trigger] out[i].hash == x);
            assert forall|x: BlockHash|
                reachable_within(rel, past, root, x) implies exists|i: int|
                    0 <= i < out.len() && #[trigger] out[i].hash == x by {
                let path = choose|path: Seq<BlockHash>| #[trigger] is_path_within(rel, past, root, path) && path.last() == x;
                if past.contains(root) {
                    assert(visited@.contains(root));
                    assert(outs.contains(root));
                }
                assert forall|y: BlockHash, c: BlockHash|
                    #[trigger] outs.contains(y) && #[trigger] rel[y].1.contains(c) && past.contains(c) implies outs.contains(c) by {
                    let i = choose|i: int| 0 <= i < out.len() && #[trigger] out[i].hash == y;
                    assert(rel[out[i].hash].1.contains(c));
                    assert(visited@.contains(c));
                }
                lemma_closed_holds_reachable(rel, past, root, outs, path);
            }
        }
        headers
    }

    /// The candidates for the selected tip of `level` above the level of the
    /// pruning point `pp`: its parents at that level that have GHOSTDAG data.
    pub open spec fn tip_candidates(&self, pp: BlockHash, level: int) -> Seq<BlockHash> {
        keep_known(
            spec_parents_at_level(self.headers_store@[pp].0, level, self.genesis_hash),
            self.ghostdag_stores@[level]@.dom(),
        )
    }

    /// The selected tip of `level` in the proof of `pp`: `pp` itself up to its
    /// own level, and above it the largest of its parents at that level.
    pub open spec fn proof_tip(&self, pp: BlockHash, level: int) -> BlockHash {
        if level <= self.headers_store@[pp].1 {
            pp
        } else {
            max_sortable(self.ghostdag_stores@[level]@, self.tip_candidates(pp, level))
        }
    }

    /// The block `depth` blue score below `high` on its selected chain at
    /// `level`.
    pub open spec fn depth_block(&self, level: int, high: BlockHash, depth: int) -> BlockHash {
        walk_to_depth(
            self.ghostdag_stores@[level]@,
            self.ghostdag_stores@[level]@[high].blue_score as int,
            depth,
            high,
        )
    }

    /// Where the traversal of `level` starts in the proof of `pp`: the block
    /// at depth `2m` below the selected tip, or, below the top level, the block
    /// at depth `m` at the next level where that one is on its chain, or else
    /// the first block of that one's chain in its past.
    pub open spec fn proof_root(&self, pp: BlockHash, level: int) -> BlockHash {
        let d2m = self.depth_block(level, self.proof_tip(pp, level), 2 * self.pruning_proof_m);
        if level == self.max_block_level {
            d2m
        } else {
            let dm = self.depth_block(level + 1, self.proof_tip(pp, level + 1), self.pruning_proof_m as int);
            if self.reachability_store@[d2m].chain.contains(dm) {
                dm
            } else {
                walk_to_common_ancestor(
                    self.ghostdag_stores@[level]@,
                    self.reachability_store@[d2m].ancestors,
                    dm,
                )
            }
        }
    }

    /// The stores hold what building the proof of `pp` reads at `level`.
    pub open spec fn build_level_ok(&self, pp: BlockHash, level: int) -> bool {
        let g = self.ghostdag_stores@[level]@;
        let rel = self.relations_stores@[level]@;
        let tip = self.proof_tip(pp, level);
        let root = self.proof_root(pp, level);
        &&& level > self.headers_store@[pp].1 ==> self.tip_candidates(pp, level).len() > 0
        &&& chain_ok(g, tip)
        &&& g[tip].blue_score + 2 * self.pruning_proof_m <= u64::MAX
        &&& level < self.max_block_level ==> {
            let d2m = self.depth_block(level, tip, 2 * self.pruning_proof_m);
            let dm = self.depth_block(level + 1, self.proof_tip(pp, level + 1), self.pruning_proof_m as int);
            &&& self.reachability_store@.contains_key(d2m)
            &&& !self.reachability_store@[d2m].chain.contains(dm) ==> chain_ok(g, dm)
                && walk_to_common_ancestor(g, self.reachability_store@[d2m].ancestors, dm) != ORIGIN
        }
        &&& rel_wf(rel)
        &&& rel.contains_key(root)
        &&& forall|h: BlockHash| #[trigger] rel.contains_key(h) ==> g.contains_key(h)
        &&& self.reachability_store@.contains_key(tip)
        &&& forall|h: BlockHash|
            #[trigger] reachable_within(rel, self.reachability_store@[tip].ancestors, root, h)
                ==> self.headers_store@.contains_key(h)
    }

    /// The stores hold what building the proof of `pp` reads.
    pub open spec fn can_build_proof(&self, pp: BlockHash) -> bool {
        pp != self.genesis_hash ==> {
            &&& self.headers_store@.contains_key(pp)
            &&& headers_keyed(self.headers_store@)
            &&& 2 * self.pruning_proof_m <= u64::MAX
            &&& forall|l: int| 0 <= l <= self.max_block_level ==> #[trigger] self.build_level_ok(pp, l)
        }
    }

    /// The pruning point proof of `pp`: none for genesis; otherwise, for each
    /// level, the headers of the blocks reachable from the level's root along
    /// child edges within the past of the level's selected tip.
    pub fn build_pruning_point_proof(&self, pp: BlockHash) -> (r: PruningPointProof)
        requires
            self.inv(),
            self.can_build_proof(pp),
        ensures
            pp == self.genesis_hash ==> r@.len() == 0,
            pp != self.genesis_hash ==> r@.len() == self.max_block_level + 1 && forall|l: int|
                0 <= l <= self.max_block_level ==> level_headers_ok(
                    self.relations_stores@[l]@,
                    self.ghostdag_stores@[l]@,
                    self.reachability_store@[self.proof_tip(pp, l)].ancestors,
                    self.headers_store@,
                    self.proof_root(pp, l),
                    #[trigger] headers_view(r@[l]@),
                ),
    {
        if pp == self.genesis_hash {
            return Vec::new();
        }
        let pp_header = match self.headers_store.get_header(pp) {
            Ok(h) => h,
            Err(_) => {
                assert(false);
                return Vec::new();
            },
        };
        let pp_level = match self.headers_store.get_block_level(pp) {
            Ok(l) => l,
            Err(_) => {
                assert(false);
                return Vec::new();
            },
        };
        let max = self.max_block_level;
        let mut tips: Vec<BlockHash> = Vec::new();
        let mut level: u16 = 0;
        while level <= max as u16
            invariant
                level <= max as u16 + 1,
                max == self.max_block_level,
                self.inv(),
                self.can_build_proof(pp),
                pp != self.genesis_hash,
                pp_header@ == self.headers_store@[pp].0,
                pp_level == self.headers_store@[pp].1,
                tips@.len() == level,
                forall|l: int| 0 <= l < level ==> #[trigger] tips@[l] == self.proof_tip(pp, l),
            decreases max as u16 + 1 - level,
        {
            proof {
                assert(self.build_level_ok(pp, level as int));
            }
            let tip = if (level as BlockLevel) <= pp_level {
                pp
            } else {
                let ps = self.parents_manager.parents_at_level(&pp_header, level as BlockLevel);
                let mut filtered: Vec<BlockHash> = Vec::new();
                let mut k: usize = 0;
                while k < ps.len()
                    invariant
                        k <= ps@.len(),
                        (level as int) < self.ghostdag_stores@.len(),
                        filtered@ == keep_known(ps@.take(k as int), self.ghostdag_stores@[level as int]@.dom()),
                    decreases ps@.len() - k,
                {
                    let p = ps[k];
                    proof {
                        assert(ps@.take(k + 1).drop_last() =~= ps@.take(k as int));
                        assert(ps@.take(k + 1).last() == p);
                    }
                    if self.ghostdag_stores[level as usize].has(p) {
                        filtered.push(p);
                    }
                    k = k + 1;
                }
                proof {
                    assert(ps@.take(ps@.len() as int) =~= ps@);
                    assert(filtered@ == self.tip_candidates(pp, level as int));
                    lemma_keep_known(ps@, self.ghostdag_stores@[level as int]@.dom());
                }
                Self::find_selected_parent(&self.ghostdag_stores[level as usize], &filtered)
            };
            tips.push(tip);
            level = level + 1;
        }
        let m = self.pruning_proof_m;
        let mut proof_levels: PruningPointProof = Vec::new();
        let mut lv: usize = 0;
        while lv <= max as usize
            invariant
                lv <= max as usize + 1,
                max == self.max_block_level,
                self.inv(),
                self.can_build_proof(pp),
                pp != self.genesis_hash,
                m == self.pruning_proof_m,
                tips@.len() == max as int + 1,
                forall|l: int| 0 <= l <= max ==> #[trigger] tips@[l] == self.proof_tip(pp, l),
                proof_levels@.len() == lv,
                forall|l: int|
                    0 <= l < lv ==> level_headers_ok(
                        self.relations_stores@[l]@,
                        self.ghostdag_stores@[l]@,
                        self.reachability_store@[self.proof_tip(pp, l)].ancestors,
                        self.headers_store@,
                        self.proof_root(pp, l),
                        #[trigger] headers_view(proof_levels@[l]@),
                    ),
            decreases max as usize + 1 - lv,
        {
            let ghost l = lv as int;
            proof {
                assert(self.build_level_ok(pp, l));
                if l < max {
                    assert(self.build_level_ok(pp, l + 1));
                }
            }
            let selected_tip = tips[lv];
            let block_at_depth_2m = self.block_at_depth(&self.ghostdag_stores[lv], selected_tip, 2 * m);
            let root = if lv != max as usize {
                let dm = self.block_at_depth(&self.ghostdag_stores[lv + 1], tips[lv + 1], m);
                if self.reachability_store.is_chain_ancestor_of(dm, block_at_depth_2m) {
                    dm
                } else {
                    self.find_common_ancestor_in_chain_of_a(&self.ghostdag_stores[lv], dm, block_at_depth_2m)
                }
            } else {
                block_at_depth_2m
            };
            assert(root == self.proof_root(pp, l));
            let headers = self.collect_level_headers(lv, root, selected_tip);
            proof_levels.push(headers);
            proof {
                assert forall|l2: int|
                    0 <= l2 < lv + 1 implies level_headers_ok(
                        self.relations_stores@[l2]@,
                        self.ghostdag_stores@[l2]@,
                        self.reachability_store@[self.proof_tip(pp, l2)].ancestors,
                        self.headers_store@,
                        self.proof_root(pp, l2),
                        #[trigger] headers_view(proof_levels@[l2]@),
                    ) by {
                }
            }
            lv = lv + 1;
        }
        proof_levels
    }

    /// The largest of `candidates` by blue work and then hash.
    pub fn find_selected_parent(ghostdag_store: &GhostdagStore, candidates: &Vec<BlockHash>) -> (r:
        BlockHash)
        requires
            candidates@.len() > 0,
            forall|i: int|
                0 <= i < candidates@.len() ==> ghostdag_store@.contains_key(#[trigger] candidates@[i]),
        ensures
            r == max_sortable(ghostdag_store@, candidates@),
            candidates@.contains(r),
            forall|i: int|
                0 <= i < candidates@.len() ==> sortable_le(
                    SortableBlock {
                        hash: #[trigger] candidates@[i],
                        blue_work: ghostdag_store@[candidates@[i]].blue_work,
                    },
                    SortableBlock { hash: r, blue_work: ghostdag_store@[r].blue_work },
                ),
    {
        let first = candidates[0];
        let mut best = SortableBlock::new(first, Self::blue_work_of(ghostdag_store, first));
        assert(candidates@.take(1).len() == 1 && candidates@.take(1)[0] == first);
        let mut i: usize = 1;
        while i < candidates.len()
            invariant
                1 <= i <= candidates@.len(),
                forall|k: int|
                    0 <= k < candidates@.len() ==> ghostdag_store@.contains_key(#[trigger] candidates@[k]),
                candidates@.contains(best.hash),
                best.hash == max_sortable(ghostdag_store@, candidates@.take(i as int)),
                best.blue_work == ghostdag_store@[best.hash].blue_work,
                forall|k: int|
                    0 <= k < i ==> sortable_le(
                        SortableBlock {
                            hash: #[trigger] candidates@[k],
                            blue_work: ghostdag_store@[candidates@[k]].blue_work,
                        },
                        best,
                    ),
            decreases candidates@.len() - i,
        {
            let c = candidates[i];
            let sb = SortableBlock::new(c, Self::blue_work_of(ghostdag_store, c));
            proof {
                assert(candidates@.take(i + 1).drop_last() =~= candidates@.take(i as int));
                assert(candidates@.take(i + 1).last() == c);
            }
            if best.less_than(&sb) {
                best = sb;
            }
            i = i + 1;
        }
        assert(candidates@.take(candidates@.len() as int) =~= candidates@);
        best.hash
    }

    fn blue_work_of(ghostdag_store: &GhostdagStore, hash: BlockHash) -> (r: BlueWork)
        requires
            ghostdag_store@.contains_key(hash),
        ensures
            r == ghostdag_store@[hash].blue_work,
    {
        match ghostdag_store.get_blue_work(hash) {
            Ok(w) => w,
            Err(_) => {
                assert(false);
                0
            },
        }
    }

    /// Records the given pruning point headers: each as the past pruning point
    /// at its index, each not yet stored into the headers store with the level
    /// of its proof of work, and the last as the current pruning point.
    pub fn import_pruning_points(&mut self, pruning_points: &Vec<Header>)
        requires
            pruning_points@.len() > 0,
        ensures
            final(self).past_pruning_points_store@ == with_past_points(
                old(self).past_pruning_points_store@,
                pruning_points@.map_values(|h: Header| h.hash),
            ),
            imports_headers(
                old(self).headers_store@,
                final(self).headers_store@,
                headers_view(pruning_points@),
                old(self).max_block_level,
            ),
            old(self).new_headers_at_pow_level(old(self).headers_store@, final(self).headers_store@),
            final(self).pruning_store.info == Some(
                crate::stores::PruningPointInfo {
                    pruning_point: pruning_points@.last().hash,
                    candidate: pruning_points@.last().hash,
                    index: (pruning_points@.len() - 1) as u64,
                },
            ),
            final(self).max_block_level == old(self).max_block_level,
            final(self).reachability_store@ == old(self).reachability_store@,
            final(self).ghostdag_stores == old(self).ghostdag_stores,
            final(self).relations_stores == old(self).relations_stores,
            final(self).genesis_hash == old(self).genesis_hash,
            final(self).parents_manager == old(self).parents_manager,
            Self::keeps_rest(*old(self), *final(self)),
    {
        let ghost hashes = pruning_points@.map_values(|h: Header| h.hash);
        let ghost hv = headers_view(pruning_points@);
        let n = pruning_points.len();
        let mut i: usize = 0;
        while i < n
            invariant
                n == pruning_points@.len(),
                i <= n,
                hashes == pruning_points@.map_values(|h: Header| h.hash),
                hv == headers_view(pruning_points@),
                self.past_pruning_points_store@ == with_past_points(
                    old(self).past_pruning_points_store@,
                    hashes.take(i as int),
                ),
                imports_headers(
                    old(self).headers_store@,
                    self.headers_store@,
                    hv.take(i as int),
                    old(self).max_block_level,
                ),
                old(self).new_headers_at_pow_level(old(self).headers_store@, self.headers_store@),
                self.max_block_level == old(self).max_block_level,
                self.reachability_store@ == old(self).reachability_store@,
                self.ghostdag_stores == old(self).ghostdag_stores,
                self.relations_stores == old(self).relations_stores,
                self.genesis_hash == old(self).genesis_hash,
                self.parents_manager == old(self).parents_manager,
                Self::keeps_rest(*old(self), *self),
            decreases n - i,
        {
            let header = &pruning_points[i];
            proof {
                assert(hashes.take(i + 1).drop_last() =~= hashes.take(i as int));
                assert(hashes.take(i + 1).last() == header.hash);
            }
            self.past_pruning_points_store.set(i as u64, header.hash);
            let ghost before = self.headers_store@;
            let ghost hv_i = hv.take(i as int);
            let ghost hv_n = hv.take(i + 1);
            assert(hv_n =~= hv_i.push(header@));
            if self.headers_store.has(header.hash) {
                proof {
                    assert forall|k: BlockHash| #[trigger]
                        self.headers_store@.contains_key(k) <==> old(self).headers_store@.contains_key(k)
                            || exists|j: int| 0 <= j < hv_n.len() && #[trigger] hv_n[j].hash == k by {
                        if exists|j: int| 0 <= j < hv_n.len() && #[trigger] hv_n[j].hash == k {
                            let j = choose|j: int| 0 <= j < hv_n.len() && #[trigger] hv_n[j].hash == k;
                            if j < i {
                                assert(hv_i[j].hash == k);
                            }
                        }
                        if exists|j: int| 0 <= j < hv_i.len() && #[trigger] hv_i[j].hash == k {
                            let j = choose|j: int| 0 <= j < hv_i.len() && #[trigger] hv_i[j].hash == k;
                            assert(hv_n[j].hash == k);
                        }
                    }
                    assert forall|k: BlockHash|
                        #[trigger] self.headers_store@.contains_key(k) && !old(self).headers_store@.contains_key(k)
                        implies exists|j: int|
                            0 <= j < hv_n.len() && #[trigger] hv_n[j].hash == k && self.headers_store@[k].0
                                == hv_n[j] && self.headers_store@[k].1 <= old(self).max_block_level
                                && forall|l: int| 0 <= l < j ==> hv_n[l].hash != k by {
                        let j = choose|j: int|
                            0 <= j < hv_i.len() && #[trigger] hv_i[j].hash == k && self.headers_store@[k].0
                                == hv_i[j] && self.headers_store@[k].1 <= old(self).max_block_level
                                && forall|l: int| 0 <= l < j ==> hv_i[l].hash != k;
                        assert(hv_n[j] == hv_i[j]);
                        assert forall|l: int| 0 <= l < j implies hv_n[l].hash != k by {
                            assert(hv_n[l] == hv_i[l]);
                        }
                    }
                }
                i = i + 1;
                continue ;
            }
            let bits = self.pow.pow_bits(header);
            let block_level = calc_block_level(self.max_block_level, bits);
            let copy = header.copy();
            let res = self.headers_store.insert(header.hash, copy, block_level);
            proof {
                let k0 = header.hash;
                assert(hv_n[i as int] == header@);
                assert(!before.contains_key(k0));
                assert(self.headers_store@.dom() == before.dom().insert(k0));
                assert forall|k: BlockHash| #[trigger]
                    self.headers_store@.contains_key(k) <==> old(self).headers_store@.contains_key(k)
                        || exists|j: int| 0 <= j < hv_n.len() && #[trigger] hv_n[j].hash == k by {
                    if k == k0 {
                        assert(hv_n[i as int].hash == k);
                    }
                    if exists|j: int| 0 <= j < hv_n.len() && #[trigger] hv_n[j].hash == k {
                        let j = choose|j: int| 0 <= j < hv_n.len() && #[trigger] hv_n[j].hash == k;
                        if j < i {
                            assert(hv_i[j].hash == k);
                        }
                    }
                    if exists|j: int| 0 <= j < hv_i.len() && #[trigger] hv_i[j].hash == k {
                        let j = choose|j: int| 0 <= j < hv_i.len() && #[trigger] hv_i[j].hash == k;
                        assert(hv_n[j].hash == k);
                    }
                }
                assert forall|k: BlockHash|
                    #[trigger] self.headers_store@.contains_key(k) && !old(self).headers_store@.contains_key(k)
                    implies exists|j: int|
                        0 <= j < hv_n.len() && #[trigger] hv_n[j].hash == k && self.headers_store@[k].0
                            == hv_n[j] && self.headers_store@[k].1 <= old(self).max_block_level
                            && forall|l: int| 0 <= l < j ==> hv_n[l].hash != k by {
                    if k == k0 {
                        assert(!before.contains_key(k0));
                        assert forall|l: int| 0 <= l < i implies hv_n[l].hash != k by {
                            assert(hv_n[l] == hv_i[l]);
                            if hv_i[l].hash == k {
                                assert(before.contains_key(k));
                            }
                        }
                        assert(hv_n[i as int].hash == k);
                    } else {
                        let j = choose|j: int|
                            0 <= j < hv_i.len() && #[trigger] hv_i[j].hash == k && before[k].0 == hv_i[j]
                                && before[k].1 <= old(self).max_block_level && forall|l: int|
                                0 <= l < j ==> hv_i[l].hash != k;
                        assert(hv_n[j] == hv_i[j]);
                        assert forall|l: int| 0 <= l < j implies hv_n[l].hash != k by {
                            assert(hv_n[l] == hv_i[l]);
                        }
                    }
                }
            }
            i = i + 1;
        }
        proof {
            assert(hashes.take(n as int) =~= hashes);
            assert(hv.take(n as int) =~= hv);
        }
        let current_pp = pruning_points[n - 1].hash;
        self.pruning_store.set(current_pp, current_pp, (n - 1) as u64);
    }

    /// The first strict selected-chain ancestor of `a` that is a DAG ancestor
    /// of `b`.
    pub fn find_common_ancestor_in_chain_of_a(
        &self,
        ghostdag_store: &GhostdagStore,
        a: BlockHash,
        b: BlockHash,
    ) -> (r: BlockHash)
        requires
            chain_ok(ghostdag_store@, a),
            self.reachability_store@.contains_key(b),
            walk_to_common_ancestor(
                ghostdag_store@,
                self.reachability_store@[b].ancestors,
                a,
            ) != ORIGIN,
        ensures
            r == walk_to_common_ancestor(
                ghostdag_store@,
                self.reachability_store@[b].ancestors,
                a,
            ),
            r != ORIGIN,
            self.reachability_store@[b].ancestors.contains(r),
    {
        let ghost g = ghostdag_store@;
        let ghost past = self.reachability_store@[b].ancestors;
        let a_gd = match ghostdag_store.get_compact_data(a) {
            Ok(d) => d,
            Err(_) => {
                assert(false);
                return a;
            },
        };
        let mut current_gd = a_gd;
        let mut x: BlockHash = a;
        loop
            invariant
                chain_ok(g, x),
                g == ghostdag_store@,
                past == self.reachability_store@[b].ancestors,
                self.reachability_store@.contains_key(b),
                g.contains_key(x),
                current_gd == compact_of(g[x]),
                walk_to_common_ancestor(g, past, x) == walk_to_common_ancestor(g, past, a),
                walk_to_common_ancestor(g, past, a) != ORIGIN,
            decreases current_gd.blue_score,
        {
            let current = current_gd.selected_parent;
            if current == ORIGIN {
                assert(false);
                return current;
            }
            if self.reachability_store.is_dag_ancestor_of(current, b) {
                return current;
            }
            x = current;
            current_gd = match ghostdag_store.get_compact_data(current) {
                Ok(d) => d,
                Err(_) => {
                    assert(false);
                    return current;
                },
            };
        }
    }
    /// A header newly stored from a proof or from imported pruning points is
    /// at the block level its proof of work gives: for the bits that
    /// `pow_bits` reports for it, `max_block_level - bits` where that is
    /// positive, and 0 otherwise.
    pub proof fn new_header_level_follows_pow(
        &self,
        old: Map<BlockHash, (HeaderView, BlockLevel)>,
        new: Map<BlockHash, (HeaderView, BlockLevel)>,
        k: BlockHash,
    )
        requires
            self.new_headers_at_pow_level(old, new),
            new.contains_key(k),
            !old.contains_key(k),
        ensures
            exists|hd: Header, bits: u32|
                hd@ == new[k].0 && #[trigger] call_ensures(P::pow_bits, (&self.pow, &hd), bits)
                    && new[k].1 as int == (if bits as int >= self.max_block_level as int {
                    0
                } else {
                    self.max_block_level as int - bits as int
                }),
    {
        assert(self.pow_level(new[k].0, new[k].1));
    }

    /// A level-zero proof block other than genesis and without a trusted
    /// block gets the GHOSTDAG data that the manager computes for it from its
    /// recorded parents and the store as it was before it, with the blue
    /// score and blue work of its header in place of the computed ones.
    pub proof fn untrusted_level_zero_data_is_computed(
        mgr: G,
        genesis_hash: BlockHash,
        g0: Map<BlockHash, GhostdagDataView>,
        g: Map<BlockHash, GhostdagDataView>,
        lh: Seq<HeaderView>,
        trusted: Seq<(BlockHash, GhostdagDataView)>,
        i: int,
    )
        requires
            Self::level_ghostdag_computed(mgr, genesis_hash, g0, g, lh, 0, trusted),
            0 <= i < lh.len(),
            lh[i].hash != genesis_hash,
            trusted_gd(trusted, lh[i].hash) is None,
        ensures
            exists|st: GhostdagStore, pv: Vec<BlockHash>, c: GhostdagData|
                st@ == g.restrict(level_known(g0.dom(), lh, i)) && pv@ == applied_parents(
                    g0.dom(),
                    lh,
                    i,
                    0,
                    genesis_hash,
                ) && #[trigger] call_ensures(G::ghostdag, (&mgr, 0usize, &st, &pv), c)
                    && g[lh[i].hash].selected_parent == c.selected_parent
                    && g[lh[i].hash].mergeset_blues == c.mergeset_blues@
                    && g[lh[i].hash].mergeset_reds == c.mergeset_reds@
                    && g[lh[i].hash].blues_anticone_sizes == c.blues_anticone_sizes@
                    && g[lh[i].hash].blue_score == lh[i].blue_score
                    && g[lh[i].hash].blue_work == lh[i].blue_work,
    {
        let kn = g.restrict(level_known(g0.dom(), lh, i));
        let ps = applied_parents(g0.dom(), lh, i, 0, genesis_hash);
        assert(Self::computed_data(mgr, genesis_hash, kn, ps, lh[i], 0, trusted, g[lh[i].hash]));
        let cv = choose|cv: GhostdagDataView|
            #[trigger] Self::ghostdag_of(mgr, 0, kn, ps, cv) && g[lh[i].hash] == with_header_work(cv, lh[i]);
        assert(Self::ghostdag_of(mgr, 0, kn, ps, cv));
    }
}

} // verus!
