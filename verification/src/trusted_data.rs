//! The anticone of the pruning point and the trusted data that is sent with
//! it: the headers of the difficulty windows of the anticone blocks, and the
//! GHOSTDAG data of the first blocks of their selected chains.
use vstd::prelude::*;

use crate::model::{
    contains_hash, copy_hashes, copy_proof, hash_rows_view, headers_view, proof_view, sort_blocks_ascending,
    strictly_sorted, BlockHash, GhostdagData, GhostdagDataView, HeaderView, PruningPointProof, SortableBlock,
    TrustedGhostdagData, TrustedHeader, ORIGIN,
};
use crate::pruning_proof::{
    level_headers_ok, walk_to_common_ancestor, walk_to_depth, CachedData, DagTraversal, GhostdagManager, ProofOfWork, PruningProofManager,
};
use crate::reachability::{reach_wf, ReachabilityStore, ReachabilityView};
use crate::stores::{GhostdagStore, HeadersStore, StoreError};
use crate::traversal::{anticone, anticone_set, is_down_path, parents_closed};

verus! {

/// The first `k` blocks of the selected chain of `b`, from `b` down, stopping
/// before `ORIGIN`.
pub open spec fn backward_chain(
    reach: Map<BlockHash, ReachabilityView>,
    b: BlockHash,
    k: nat,
) -> Seq<BlockHash>
    decreases k,
{
    if k == 0 || b == ORIGIN {
        Seq::empty()
    } else {
        seq![b] + backward_chain(reach, reach[b].selected_parent, (k - 1) as nat)
    }
}

/// The blocks of `s` in the order of their first occurrence, each once.
pub open spec fn first_occurrences(s: Seq<BlockHash>) -> Seq<BlockHash>
    decreases s.len(),
{
    if s.len() == 0 {
        Seq::empty()
    } else {
        let d = first_occurrences(s.drop_last());
        if d.contains(s.last()) {
            d
        } else {
            d.push(s.last())
        }
    }
}

/// The rows of `rows` one after the other.
pub open spec fn flatten_hashes(rows: Seq<Seq<BlockHash>>) -> Seq<BlockHash>
    decreases rows.len(),
{
    if rows.len() == 0 {
        Seq::empty()
    } else {
        flatten_hashes(rows.drop_last()) + rows.last()
    }
}

/// The first `k` blocks of the selected chains of `blocks`, one chain after
/// the other.
pub open spec fn chains_of(
    reach: Map<BlockHash, ReachabilityView>,
    blocks: Seq<BlockHash>,
    k: nat,
) -> Seq<BlockHash>
    decreases blocks.len(),
{
    if blocks.len() == 0 {
        Seq::empty()
    } else {
        chains_of(reach, blocks.drop_last(), k) + backward_chain(reach, blocks.last(), k)
    }
}

/// `v` holds, for each block of `d` in order, its stored header and its
/// GHOSTDAG data.
pub open spec fn trusted_headers_match(
    hs: Map<BlockHash, (HeaderView, u8)>,
    g: Map<BlockHash, GhostdagDataView>,
    d: Seq<BlockHash>,
    v: Seq<TrustedHeader>,
) -> bool {
    &&& v.len() == d.len()
    &&& forall|j: int|
        0 <= j < d.len() ==> (#[trigger] v[j]).header@ == hs[d[j]].0 && v[j].ghostdag@ == g[d[j]]
}

/// `v` holds, for each block of `d` in order, the block with its GHOSTDAG
/// data.
pub open spec fn trusted_ghostdag_match(
    g: Map<BlockHash, GhostdagDataView>,
    d: Seq<BlockHash>,
    v: Seq<TrustedGhostdagData>,
) -> bool {
    &&& v.len() == d.len()
    &&& forall|j: int| 0 <= j < d.len() ==> (#[trigger] v[j]).hash == d[j] && v[j].ghostdag@ == g[d[j]]
}

/// The blocks of `s` with their blue work in `g`.
pub open spec fn sortables(g: Map<BlockHash, GhostdagDataView>, s: Seq<BlockHash>) -> Seq<
    SortableBlock,
> {
    s.map_values(|h: BlockHash| SortableBlock { hash: h, blue_work: g[h].blue_work })
}

proof fn lemma_first_occurrences_push(s: Seq<BlockHash>, x: BlockHash)
    ensures
        first_occurrences(s.push(x)) == if first_occurrences(s).contains(x) {
            first_occurrences(s)
        } else {
            first_occurrences(s).push(x)
        },
{
    assert(s.push(x).drop_last() =~= s);
}

proof fn lemma_first_occurrences_props(s: Seq<BlockHash>)
    ensures
        first_occurrences(s).no_duplicates(),
        forall|x: BlockHash| #[trigger] first_occurrences(s).contains(x) <==> s.contains(x),
    decreases s.len(),
{
    if s.len() > 0 {
        let init = s.drop_last();
        lemma_first_occurrences_props(init);
        assert(s =~= init.push(s.last()));
        assert forall|x: BlockHash| #[trigger] s.contains(x) <==> init.contains(x) || x == s.last() by {
            if s.contains(x) {
                let k = choose|k: int| 0 <= k < s.len() && s[k] == x;
                if k < init.len() {
                    assert(init[k] == x);
                }
            }
            if init.contains(x) {
                let k = choose|k: int| 0 <= k < init.len() && init[k] == x;
                assert(s[k] == x);
            }
            if x == s.last() {
                assert(s[s.len() - 1] == x);
            }
        }
        let d = first_occurrences(init);
        if !d.contains(s.last()) {
            let e = d.push(s.last());
            assert forall|x: BlockHash| #[trigger] e.contains(x) <==> d.contains(x) || x == s.last() by {
                if e.contains(x) {
                    let k = choose|k: int| 0 <= k < e.len() && e[k] == x;
                    if k < d.len() {
                        assert(d[k] == x);
                    }
                }
                if d.contains(x) {
                    let k = choose|k: int| 0 <= k < d.len() && d[k] == x;
                    assert(e[k] == x);
                }
                if x == s.last() {
                    assert(e[d.len() as int] == x);
                }
            }
            assert forall|i: int, j: int| 0 <= i < j < e.len() implies e[i] != e[j] by {
                if j == d.len() {
                    assert(e[i] == d[i]);
                    assert(d.contains(d[i]));
                } else {
                    assert(e[i] == d[i] && e[j] == d[j]);
                }
            }
        }
    }
}

/// The first `k` blocks of the selected chain of `from`, from `from` down,
/// stopping before `ORIGIN`.
pub fn backward_chain_take(reach: &ReachabilityStore, from: BlockHash, k: usize) -> (r: Vec<
    BlockHash,
>)
    requires
        reach_wf(reach@),
        reach@.contains_key(from),
    ensures
        r@ == backward_chain(reach@, from, k as nat),
{
    let mut r: Vec<BlockHash> = Vec::new();
    let mut current = from;
    let mut taken: usize = 0;
    while taken < k && current != ORIGIN
        invariant
            reach_wf(reach@),
            reach@.contains_key(current),
            taken <= k,
            r@ + backward_chain(reach@, current, (k - taken) as nat) == backward_chain(
                reach@,
                from,
                k as nat,
            ),
        decreases k - taken,
    {
        let ghost before = r@;
        let ghost c0 = current;
        r.push(current);
        current = match reach.get_selected_parent(current) {
            Ok(p) => p,
            Err(_) => {
                assert(false);
                return r;
            },
        };
        taken = taken + 1;
        proof {
            let rest = backward_chain(reach@, current, (k - taken) as nat);
            assert(backward_chain(reach@, c0, (k - taken + 1) as nat) == seq![c0] + rest);
            assert(r@ + rest =~= before + (seq![c0] + rest));
        }
    }
    proof {
        assert(backward_chain(reach@, current, (k - taken) as nat) =~= Seq::<BlockHash>::empty());
        assert(r@ + Seq::<BlockHash>::empty() =~= r@);
    }
    r
}


/// The blocks in ascending order of blue work in `ghostdag_store`, ties
/// broken by hash.
pub fn sort_blocks(ghostdag_store: &GhostdagStore, blocks: &Vec<BlockHash>) -> (r: Vec<BlockHash>)
    requires
        blocks@.no_duplicates(),
        forall|i: int| 0 <= i < blocks@.len() ==> ghostdag_store@.contains_key(#[trigger] blocks@[i]),
    ensures
        r@.len() == blocks@.len(),
        r@.to_set() == blocks@.to_set(),
        strictly_sorted(sortables(ghostdag_store@, r@)),
{
    let ghost g = ghostdag_store@;
    let mut keyed: Vec<SortableBlock> = Vec::new();
    let mut i: usize = 0;
    while i < blocks.len()
        invariant
            i <= blocks@.len(),
            g == ghostdag_store@,
            forall|j: int| 0 <= j < blocks@.len() ==> g.contains_key(#[trigger] blocks@[j]),
            keyed@ == sortables(g, blocks@.take(i as int)),
        decreases blocks@.len() - i,
    {
        let w = match ghostdag_store.get_blue_work(blocks[i]) {
            Ok(w) => w,
            Err(_) => {
                assert(false);
                0
            },
        };
        keyed.push(SortableBlock::new(blocks[i], w));
        i = i + 1;
        assert(keyed@ =~= sortables(g, blocks@.take(i as int)));
    }
    proof {
        assert(blocks@.take(blocks@.len() as int) =~= blocks@);
        assert(keyed@.no_duplicates()) by {
            assert forall|a: int, b: int| 0 <= a < b < keyed@.len() implies keyed@[a] != keyed@[b] by {
                assert(keyed@[a].hash == blocks@[a] && keyed@[b].hash == blocks@[b]);
            }
        }
    }
    let sorted = sort_blocks_ascending(&keyed);
    let mut r: Vec<BlockHash> = Vec::new();
    let mut k: usize = 0;
    while k < sorted.len()
        invariant
            k <= sorted@.len(),
            r@.len() == k,
            forall|j: int| 0 <= j < k ==> #[trigger] r@[j] == sorted@[j].hash,
        decreases sorted@.len() - k,
    {
        r.push(sorted[k].hash);
        k = k + 1;
    }
    proof {
        assert forall|j: int| 0 <= j < sorted@.len() implies #[trigger] sorted@[j] == SortableBlock {
            hash: r@[j],
            blue_work: g[r@[j]].blue_work,
        } by {
            assert(sorted@.to_set().contains(sorted@[j]));
            assert(keyed@.contains(sorted@[j]));
            let a = choose|a: int| 0 <= a < keyed@.len() && keyed@[a] == sorted@[j];
            assert(keyed@[a].hash == blocks@[a]);
        }
        assert(sortables(g, r@) =~= sorted@);
        assert forall|x: BlockHash| #[trigger] r@.to_set().contains(x) <==> blocks@.to_set().contains(x) by {
            if r@.contains(x) {
                let j = choose|j: int| 0 <= j < r@.len() && r@[j] == x;
                assert(sorted@.to_set().contains(sorted@[j]));
                let a = choose|a: int| 0 <= a < keyed@.len() && keyed@[a] == sorted@[j];
                assert(blocks@[a] == x);
            }
            if blocks@.contains(x) {
                let a = choose|a: int| 0 <= a < blocks@.len() && blocks@[a] == x;
                assert(keyed@.to_set().contains(keyed@[a]));
                let j = choose|j: int| 0 <= j < sorted@.len() && sorted@[j] == keyed@[a];
                assert(r@[j] == x);
            }
        }
        assert(r@.to_set() =~= blocks@.to_set());
    }
    r
}


proof fn lemma_flatten_contains(rows: Seq<Seq<BlockHash>>, i: int, x: BlockHash)
    requires
        0 <= i < rows.len(),
        rows[i].contains(x),
    ensures
        flatten_hashes(rows).contains(x),
    decreases rows.len(),
{
    let init = rows.drop_last();
    if i == rows.len() - 1 {
        let j = choose|j: int| 0 <= j < rows[i].len() && rows[i][j] == x;
        let f = flatten_hashes(rows);
        assert(f[flatten_hashes(init).len() + j] == x);
    } else {
        lemma_flatten_contains(init, i, x);
        let j = choose|j: int| 0 <= j < flatten_hashes(init).len() && flatten_hashes(init)[j] == x;
        assert(flatten_hashes(rows)[j] == x);
    }
}

proof fn lemma_chains_contains(
    reach: Map<BlockHash, ReachabilityView>,
    blocks: Seq<BlockHash>,
    k: nat,
    i: int,
    x: BlockHash,
)
    requires
        0 <= i < blocks.len(),
        backward_chain(reach, blocks[i], k).contains(x),
    ensures
        chains_of(reach, blocks, k).contains(x),
    decreases blocks.len(),
{
    let init = blocks.drop_last();
    if i == blocks.len() - 1 {
        let c = backward_chain(reach, blocks[i], k);
        let j = choose|j: int| 0 <= j < c.len() && c[j] == x;
        assert(chains_of(reach, blocks, k)[chains_of(reach, init, k).len() + j] == x);
    } else {
        assert(init[i] == blocks[i]);
        lemma_chains_contains(reach, init, k, i, x);
        let a = chains_of(reach, init, k);
        let j = choose|j: int| 0 <= j < a.len() && a[j] == x;
        assert(chains_of(reach, blocks, k)[j] == x);
    }
}


proof fn lemma_chains_member(
    reach: Map<BlockHash, ReachabilityView>,
    blocks: Seq<BlockHash>,
    k: nat,
    x: BlockHash,
)
    requires
        chains_of(reach, blocks, k).contains(x),
    ensures
        exists|i: int| 0 <= i < blocks.len() && #[trigger] backward_chain(reach, blocks[i], k).contains(x),
    decreases blocks.len(),
{
    let init = blocks.drop_last();
    let a = chains_of(reach, init, k);
    let c = backward_chain(reach, blocks.last(), k);
    let t = choose|t: int| 0 <= t < a.len() + c.len() && chains_of(reach, blocks, k)[t] == x;
    if t < a.len() {
        assert(a[t] == x);
        lemma_chains_member(reach, init, k, x);
        let i = choose|i: int| 0 <= i < init.len() && #[trigger] backward_chain(reach, init[i], k).contains(x);
        assert(init[i] == blocks[i]);
    } else {
        assert(c[t - a.len()] == x);
        assert(backward_chain(reach, blocks[blocks.len() - 1], k).contains(x));
    }
}

proof fn lemma_flatten_member(rows: Seq<Seq<BlockHash>>, x: BlockHash)
    requires
        flatten_hashes(rows).contains(x),
    ensures
        exists|j: int| 0 <= j < rows.len() && #[trigger] rows[j].contains(x),
    decreases rows.len(),
{
    let init = rows.drop_last();
    let a = flatten_hashes(init);
    let t = choose|t: int| 0 <= t < flatten_hashes(rows).len() && flatten_hashes(rows)[t] == x;
    if t < a.len() {
        assert(a[t] == x);
        lemma_flatten_member(init, x);
        let j = choose|j: int| 0 <= j < init.len() && #[trigger] init[j].contains(x);
        assert(init[j] == rows[j]);
    } else {
        assert(rows.last()[t - a.len()] == x);
        assert(rows[rows.len() - 1].contains(x));
    }
}

/// For the anticone blocks in order, where `windows[i]` is the difficulty
/// window of `anticone[i]`: the header and GHOSTDAG data of each window
/// block, and the GHOSTDAG data of each of the first `k` blocks of the
/// selected chain of each anticone block; each block once, in the order in
/// which it first comes.
pub fn collect_trusted_data(
    headers_store: &HeadersStore,
    ghostdag_store: &GhostdagStore,
    reach: &ReachabilityStore,
    anticone: &Vec<BlockHash>,
    windows: &Vec<Vec<BlockHash>>,
    k: usize,
) -> (r: (Vec<TrustedHeader>, Vec<TrustedGhostdagData>))
    requires
        windows@.len() == anticone@.len(),
        forall|h: BlockHash|
            #[trigger] flatten_hashes(hash_rows_view(windows@)).contains(h)
                ==> headers_store@.contains_key(h) && ghostdag_store@.contains_key(h),
        reach_wf(reach@),
        forall|i: int| 0 <= i < anticone@.len() ==> reach@.contains_key(#[trigger] anticone@[i]),
        forall|h: BlockHash|
            #[trigger] chains_of(reach@, anticone@, k as nat).contains(h)
                ==> ghostdag_store@.contains_key(h),
    ensures
        trusted_headers_match(
            headers_store@,
            ghostdag_store@,
            first_occurrences(flatten_hashes(hash_rows_view(windows@))),
            r.0@,
        ),
        trusted_ghostdag_match(
            ghostdag_store@,
            first_occurrences(chains_of(reach@, anticone@, k as nat)),
            r.1@,
        ),
{
    let ghost hs = headers_store@;
    let ghost g = ghostdag_store@;
    let ghost rows = hash_rows_view(windows@);
    let ghost kn = k as nat;
    let mut seen_w: Vec<BlockHash> = Vec::new();
    let mut daa: Vec<TrustedHeader> = Vec::new();
    let mut seen_c: Vec<BlockHash> = Vec::new();
    let mut gd: Vec<TrustedGhostdagData> = Vec::new();
    let mut i: usize = 0;
    proof {
        assert(rows.take(0) =~= Seq::<Seq<BlockHash>>::empty());
        assert(anticone@.take(0) =~= Seq::<BlockHash>::empty());
    }
    while i < anticone.len()
        invariant
            i <= anticone@.len(),
            windows@.len() == anticone@.len(),
            hs == headers_store@,
            g == ghostdag_store@,
            rows == hash_rows_view(windows@),
            kn == k as nat,
            forall|h: BlockHash|
                #[trigger] flatten_hashes(rows).contains(h) ==> hs.contains_key(h) && g.contains_key(h),
            reach_wf(reach@),
            forall|j: int| 0 <= j < anticone@.len() ==> reach@.contains_key(#[trigger] anticone@[j]),
            forall|h: BlockHash| #[trigger] chains_of(reach@, anticone@, kn).contains(h) ==> g.contains_key(h),
            seen_w@ == first_occurrences(flatten_hashes(rows.take(i as int))),
            trusted_headers_match(hs, g, seen_w@, daa@),
            seen_c@ == first_occurrences(chains_of(reach@, anticone@.take(i as int), kn)),
            trusted_ghostdag_match(g, seen_c@, gd@),
        decreases anticone@.len() - i,
    {
        let window = &windows[i];
        let ghost base_w = flatten_hashes(rows.take(i as int));
        proof {
            assert(rows[i as int] == window@);
        }
        let mut j: usize = 0;
        proof {
            assert(base_w + window@.take(0) =~= base_w);
        }
        while j < window.len()
            invariant
                j <= window@.len(),
                i < anticone@.len(),
                rows == hash_rows_view(windows@),
                rows[i as int] == window@,
                i < rows.len(),
                hs == headers_store@,
                g == ghostdag_store@,
                forall|h: BlockHash|
                    #[trigger] flatten_hashes(rows).contains(h) ==> hs.contains_key(h) && g.contains_key(h),
                seen_w@ == first_occurrences(base_w + window@.take(j as int)),
                trusted_headers_match(hs, g, seen_w@, daa@),
            decreases window@.len() - j,
        {
            let h = window[j];
            proof {
                assert((base_w + window@.take(j + 1)) =~= (base_w + window@.take(j as int)).push(h));
                lemma_first_occurrences_push(base_w + window@.take(j as int), h);
                assert(rows[i as int].contains(h)) by {
                    assert(window@[j as int] == h);
                }
                lemma_flatten_contains(rows, i as int, h);
            }
            if !contains_hash(&seen_w, h) {
                let header = match headers_store.get_header(h) {
                    Ok(x) => x,
                    Err(_) => {
                        assert(false);
                        return (daa, gd);
                    },
                };
                let data = match ghostdag_store.get_data(h) {
                    Ok(x) => x,
                    Err(_) => {
                        assert(false);
                        return (daa, gd);
                    },
                };
                let ghost d0 = seen_w@;
                let ghost v0 = daa@;
                seen_w.push(h);
                daa.push(TrustedHeader { header, ghostdag: data });
                proof {
                    assert forall|t: int| 0 <= t < seen_w@.len() implies (#[trigger] daa@[t]).header@ == hs[seen_w@[t]].0
                        && daa@[t].ghostdag@ == g[seen_w@[t]] by {
                        if t < d0.len() {
                            assert(daa@[t] == v0[t]);
                            assert(seen_w@[t] == d0[t]);
                        }
                    }
                }
            }
            j = j + 1;
        }
        proof {
            assert(window@.take(window@.len() as int) =~= window@);
            assert(rows.take(i + 1).drop_last() =~= rows.take(i as int));
            assert(flatten_hashes(rows.take(i + 1)) == base_w + window@);
        }
        let chain = backward_chain_take(reach, anticone[i], k);
        let ghost base_c = chains_of(reach@, anticone@.take(i as int), kn);
        let mut c: usize = 0;
        proof {
            assert(base_c + chain@.take(0) =~= base_c);
        }
        while c < chain.len()
            invariant
                c <= chain@.len(),
                i < anticone@.len(),
                chain@ == backward_chain(reach@, anticone@[i as int], kn),
                g == ghostdag_store@,
                forall|h: BlockHash| #[trigger] chains_of(reach@, anticone@, kn).contains(h) ==> g.contains_key(h),
                seen_c@ == first_occurrences(base_c + chain@.take(c as int)),
                trusted_ghostdag_match(g, seen_c@, gd@),
            decreases chain@.len() - c,
        {
            let h = chain[c];
            proof {
                assert((base_c + chain@.take(c + 1)) =~= (base_c + chain@.take(c as int)).push(h));
                lemma_first_occurrences_push(base_c + chain@.take(c as int), h);
                assert(chain@[c as int] == h);
                lemma_chains_contains(reach@, anticone@, kn, i as int, h);
            }
            if !contains_hash(&seen_c, h) {
                let data = match ghostdag_store.get_data(h) {
                    Ok(x) => x,
                    Err(_) => {
                        assert(false);
                        return (daa, gd);
                    },
                };
                let ghost d0 = seen_c@;
                let ghost v0 = gd@;
                seen_c.push(h);
                gd.push(TrustedGhostdagData { hash: h, ghostdag: data });
                proof {
                    assert forall|t: int| 0 <= t < seen_c@.len() implies (#[trigger] gd@[t]).hash == seen_c@[t]
                        && gd@[t].ghostdag@ == g[seen_c@[t]] by {
                        if t < d0.len() {
                            assert(gd@[t] == v0[t]);
                            assert(seen_c@[t] == d0[t]);
                        }
                    }
                }
            }
            c = c + 1;
        }
        proof {
            assert(chain@.take(chain@.len() as int) =~= chain@);
            assert(anticone@.take(i + 1).drop_last() =~= anticone@.take(i as int));
            assert(anticone@.take(i + 1).last() == anticone@[i as int]);
            assert(chains_of(reach@, anticone@.take(i + 1), kn) == base_c + chain@);
        }
        i = i + 1;
    }
    proof {
        assert(rows.take(rows.len() as int) =~= rows);
        assert(anticone@.take(anticone@.len() as int) =~= anticone@);
    }
    (daa, gd)
}


proof fn lemma_flatten_take_prefix(rows: Seq<Seq<BlockHash>>, i: int)
    requires
        0 <= i <= rows.len(),
    ensures
        flatten_hashes(rows.take(i)).len() <= flatten_hashes(rows).len(),
        flatten_hashes(rows).subrange(0, flatten_hashes(rows.take(i)).len() as int) == flatten_hashes(
            rows.take(i),
        ),
    decreases rows.len(),
{
    if i == rows.len() {
        assert(rows.take(i) =~= rows);
    } else {
        let init = rows.drop_last();
        assert(rows.take(i) =~= init.take(i));
        lemma_flatten_take_prefix(init, i);
        let a = flatten_hashes(init);
        let f = flatten_hashes(rows);
        assert(f == a + rows.last());
        assert(f.subrange(0, flatten_hashes(init.take(i)).len() as int) =~= a.subrange(
            0,
            flatten_hashes(init.take(i)).len() as int,
        ));
    }
}

/// The first block of the rows that has no header or no GHOSTDAG data, if
/// any.
pub fn first_unstored(
    headers_store: &HeadersStore,
    ghostdag_store: &GhostdagStore,
    rows: &Vec<Vec<BlockHash>>,
) -> (r: Option<BlockHash>)
    ensures
        r is None <==> forall|h: BlockHash|
            #[trigger] flatten_hashes(hash_rows_view(rows@)).contains(h) ==> headers_store@.contains_key(h)
                && ghostdag_store@.contains_key(h),
        r matches Some(h) ==> exists|t: int|
            0 <= t < flatten_hashes(hash_rows_view(rows@)).len() && #[trigger] flatten_hashes(
                hash_rows_view(rows@),
            )[t] == h && !(headers_store@.contains_key(h) && ghostdag_store@.contains_key(h))
                && forall|u: int|
                0 <= u < t ==> headers_store@.contains_key(flatten_hashes(hash_rows_view(rows@))[u])
                    && ghostdag_store@.contains_key(flatten_hashes(hash_rows_view(rows@))[u]),
{
    let ghost hv = hash_rows_view(rows@);
    let mut i: usize = 0;
    proof {
        assert(hv.take(0) =~= Seq::<Seq<BlockHash>>::empty());
    }
    while i < rows.len()
        invariant
            i <= rows@.len(),
            hv == hash_rows_view(rows@),
            forall|h: BlockHash|
                #[trigger] flatten_hashes(hv.take(i as int)).contains(h) ==> headers_store@.contains_key(h)
                    && ghostdag_store@.contains_key(h),
        decreases rows@.len() - i,
    {
        let row = &rows[i];
        let ghost base = flatten_hashes(hv.take(i as int));
        proof {
            assert(hv[i as int] == row@);
            assert(base + row@.take(0) =~= base);
        }
        let mut j: usize = 0;
        while j < row.len()
            invariant
                j <= row@.len(),
                i < rows@.len(),
                hv == hash_rows_view(rows@),
                hv[i as int] == row@,
                base == flatten_hashes(hv.take(i as int)),
                forall|h: BlockHash|
                    #[trigger] (base + row@.take(j as int)).contains(h) ==> headers_store@.contains_key(h)
                        && ghostdag_store@.contains_key(h),
            decreases row@.len() - j,
        {
            let h = row[j];
            if !(headers_store.has(h) && ghostdag_store.has(h)) {
                proof {
                    let f = flatten_hashes(hv);
                    let pre = base + row@.take(j as int);
                    let t = pre.len() as int;
                    assert(hv.take(i + 1).drop_last() =~= hv.take(i as int));
                    assert(hv.take(i + 1).last() == row@);
                    assert(flatten_hashes(hv.take(i + 1)) == base + row@);
                    lemma_flatten_take_prefix(hv, i + 1);
                    assert(f[t] == (base + row@)[t]);
                    assert((base + row@)[t] == h);
                    assert(f.contains(h));
                    assert forall|u: int| 0 <= u < t implies headers_store@.contains_key(f[u])
                        && ghostdag_store@.contains_key(f[u]) by {
                        assert(f[u] == (base + row@)[u]);
                        assert((base + row@)[u] == pre[u]);
                        assert(pre.contains(pre[u]));
                    }
                }
                return Some(h);
            }
            proof {
                let next = base + row@.take(j + 1);
                assert(next =~= (base + row@.take(j as int)).push(h));
                assert forall|x: BlockHash| #[trigger] next.contains(x) implies headers_store@.contains_key(x)
                    && ghostdag_store@.contains_key(x) by {
                    let t = choose|t: int| 0 <= t < next.len() && next[t] == x;
                    if t < next.len() - 1 {
                        assert((base + row@.take(j as int))[t] == x);
                        assert((base + row@.take(j as int)).contains(x));
                    } else {
                        assert(next[next.len() - 1] == h);
                    }
                }
            }
            j = j + 1;
        }
        proof {
            assert(row@.take(row@.len() as int) =~= row@);
            assert(hv.take(i + 1).drop_last() =~= hv.take(i as int));
            assert(flatten_hashes(hv.take(i + 1)) == base + row@);
        }
        i = i + 1;
    }
    proof {
        assert(hv.take(hv.len() as int) =~= hv);
    }
    None
}

/// A copy of the list of trusted headers.
pub fn copy_trusted_headers(v: &Vec<TrustedHeader>) -> (r: Vec<TrustedHeader>)
    ensures
        same_trusted_headers(r@, v@),
{
    let mut r: Vec<TrustedHeader> = Vec::new();
    let mut i: usize = 0;
    while i < v.len()
        invariant
            i <= v@.len(),
            r@.len() == i,
            forall|j: int| 0 <= j < i ==> (#[trigger] r@[j]).header@ == v@[j].header@ && r@[j].ghostdag@ == v@[j].ghostdag@,
        decreases v@.len() - i,
    {
        r.push(TrustedHeader { header: v[i].header.copy(), ghostdag: v[i].ghostdag.copy() });
        i = i + 1;
    }
    r
}

/// A copy of the list of trusted GHOSTDAG data.
pub fn copy_trusted_ghostdag(v: &Vec<TrustedGhostdagData>) -> (r: Vec<TrustedGhostdagData>)
    ensures
        same_trusted_ghostdag(r@, v@),
{
    let mut r: Vec<TrustedGhostdagData> = Vec::new();
    let mut i: usize = 0;
    while i < v.len()
        invariant
            i <= v@.len(),
            r@.len() == i,
            forall|j: int| 0 <= j < i ==> (#[trigger] r@[j]).hash == v@[j].hash && r@[j].ghostdag@ == v@[j].ghostdag@,
        decreases v@.len() - i,
    {
        r.push(TrustedGhostdagData { hash: v[i].hash, ghostdag: v[i].ghostdag.copy() });
        i = i + 1;
    }
    r
}

/// The two lists hold the same headers with the same GHOSTDAG data.
pub open spec fn same_trusted_headers(a: Seq<TrustedHeader>, b: Seq<TrustedHeader>) -> bool {
    &&& a.len() == b.len()
    &&& forall|j: int| 0 <= j < a.len() ==> (#[trigger] a[j]).header@ == b[j].header@ && a[j].ghostdag@ == b[j].ghostdag@
}

/// The two lists hold the same blocks with the same GHOSTDAG data.
pub open spec fn same_trusted_ghostdag(a: Seq<TrustedGhostdagData>, b: Seq<TrustedGhostdagData>) -> bool {
    &&& a.len() == b.len()
    &&& forall|j: int| 0 <= j < a.len() ==> (#[trigger] a[j]).hash == b[j].hash && a[j].ghostdag@ == b[j].ghostdag@
}

impl<P: ProofOfWork, G: GhostdagManager, T: DagTraversal> PruningProofManager<P, G, T> {
    /// The tips the anticone of the pruning point is seen from: the parents
    /// of the virtual block.
    pub open spec fn virtual_parents(&self) -> Seq<BlockHash> {
        self.virtual_state->Some_0.parents@
    }

    /// The anticone of `pp` as seen from the virtual parents, over the
    /// relations of block level zero.
    pub open spec fn pp_anticone_set(&self, pp: BlockHash) -> Set<BlockHash> {
        anticone_set(self.relations_stores@[0]@, self.reachability_store@, pp, self.virtual_parents())
    }

    /// The stores hold what computing the anticone of `pp` and its trusted
    /// data reads.
    pub open spec fn can_compute_anticone(&self, pp: BlockHash) -> bool {
        let rel = self.relations_stores@[0]@;
        let g = self.ghostdag_stores@[0]@;
        &&& self.inv()
        &&& self.virtual_state is Some
        &&& parents_closed(rel)
        &&& forall|i: int| 0 <= i < self.virtual_parents().len() ==> rel.contains_key(#[trigger] self.virtual_parents()[i])
        &&& forall|h: BlockHash| #[trigger] rel.contains_key(h) ==> self.reachability_store@.contains_key(h) && g.contains_key(h)
        &&& self.reachability_store@.contains_key(pp)
        &&& forall|a: BlockHash, h: BlockHash|
            #[trigger] self.pp_anticone_set(pp).contains(a) && #[trigger] backward_chain(
                self.reachability_store@,
                a,
                self.ghostdag_k as nat,
            ).contains(h) ==> g.contains_key(h)
    }

    /// `anticone` is the anticone of `pp` in ascending order of blue work.
    pub open spec fn is_pp_anticone(&self, pp: BlockHash, anticone: Seq<BlockHash>) -> bool {
        &&& anticone.to_set() == self.pp_anticone_set(pp)
        &&& strictly_sorted(sortables(self.ghostdag_stores@[0]@, anticone))
    }

    /// `w` is a window that the traversal manager's `block_window` can return
    /// for the GHOSTDAG data of `b` and the difficulty window size.
    pub open spec fn window_of(&self, b: BlockHash, w: Seq<BlockHash>) -> bool {
        exists|d: GhostdagData, v: Vec<BlockHash>|
            d@ == self.ghostdag_stores@[0]@[b] && v@ == w && #[trigger] call_ensures(
                T::block_window,
                (&self.traversal_manager, &d, self.difficulty_adjustment_window_size),
                v,
            )
    }

    /// `windows` holds, for each block of `anticone` in order, a window that
    /// `block_window` can return for it.
    pub open spec fn windows_of(&self, anticone: Seq<BlockHash>, windows: Seq<Seq<BlockHash>>) -> bool {
        &&& windows.len() == anticone.len()
        &&& forall|j: int| 0 <= j < windows.len() ==> #[trigger] self.window_of(anticone[j], windows[j])
    }

    /// `daa` and `ghostdag` are the trusted data of the blocks of `anticone`
    /// when `windows[i]` is the difficulty window of `anticone[i]` that the
    /// traversal manager returned.
    pub open spec fn is_trusted_data(
        &self,
        anticone: Seq<BlockHash>,
        windows: Seq<Seq<BlockHash>>,
        daa: Seq<TrustedHeader>,
        ghostdag: Seq<TrustedGhostdagData>,
    ) -> bool {
        &&& self.windows_of(anticone, windows)
        &&& forall|h: BlockHash|
            #[trigger] flatten_hashes(windows).contains(h) ==> self.headers_store@.contains_key(h)
                && self.ghostdag_stores@[0]@.contains_key(h)
        &&& trusted_headers_match(
            self.headers_store@,
            self.ghostdag_stores@[0]@,
            first_occurrences(flatten_hashes(windows)),
            daa,
        )
        &&& trusted_ghostdag_match(
            self.ghostdag_stores@[0]@,
            first_occurrences(chains_of(self.reachability_store@, anticone, self.ghostdag_k as nat)),
            ghostdag,
        )
    }

    /// `e` reports, for some list of windows with one window per block of the
    /// anticone of `pp`, the first block of those windows (taken in order)
    /// without a stored header or GHOSTDAG data. The windows are what the
    /// traversal manager returned; nothing here states what that is.
    pub open spec fn window_error(&self, pp: BlockHash, e: StoreError) -> bool {
        exists|a: Seq<BlockHash>, ws: Seq<Seq<BlockHash>>, t: int|
            #[trigger] self.is_pp_anticone(pp, a) && self.windows_of(a, ws) && 0 <= t < flatten_hashes(ws).len()
                && !self.stores_window_block(#[trigger] flatten_hashes(ws)[t]) && (forall|u: int|
                0 <= u < t ==> self.stores_window_block(flatten_hashes(ws)[u])) && e
                == StoreError::KeyNotFound(flatten_hashes(ws)[t])
    }

    /// The stores hold the header and the GHOSTDAG data of `h`.
    pub open spec fn stores_window_block(&self, h: BlockHash) -> bool {
        self.headers_store@.contains_key(h) && self.ghostdag_stores@[0]@.contains_key(h)
    }

    /// The anticone of `pp` in ascending order of blue work, with the trusted
    /// data that goes with it. The difficulty windows come from the
    /// traversal manager; a window block without a stored header or GHOSTDAG
    /// data is an error.
    #[verifier::spinoff_prover]
    pub fn calculate_pruning_point_anticone_and_trusted_data(&self, pruning_point: BlockHash) -> (r: Result<
        (Vec<BlockHash>, Vec<TrustedHeader>, Vec<TrustedGhostdagData>),
        StoreError,
    >)
        requires
            self.can_compute_anticone(pruning_point),
        ensures
            match r {
                Ok((a, daa, gd)) => self.is_pp_anticone(pruning_point, a@) && exists|ws: Seq<Seq<BlockHash>>|
                    #[trigger] self.is_trusted_data(a@, ws, daa@, gd@),
                Err(e) => self.window_error(pruning_point, e),
            },
    {
        let ghost rel = self.relations_stores@[0]@;
        let ghost g = self.ghostdag_stores@[0]@;
        let tips = match &self.virtual_state {
            Some(vs) => &vs.parents,
            None => {
                assert(false);
                return Err(StoreError::ValueNotSet);
            },
        };
        assert(tips@ == self.virtual_parents());
        let found = anticone(&self.relations_stores[0], &self.reachability_store, pruning_point, tips);
        proof {
            assert forall|i: int| 0 <= i < found@.len() implies g.contains_key(#[trigger] found@[i]) by {
                assert(found@.to_set().contains(found@[i]));
                let path = choose|path: Seq<BlockHash>|
                    #[trigger] is_down_path(rel, self.reachability_store@[pruning_point].ancestors, path)
                        && self.virtual_parents().contains(path[0]) && path.last() == found@[i];
                assert(rel.contains_key(path[path.len() - 1]));
            }
        }
        let sorted = sort_blocks(&self.ghostdag_stores[0], &found);
        let mut windows: Vec<Vec<BlockHash>> = Vec::new();
        let mut i: usize = 0;
        while i < sorted.len()
            invariant
                i <= sorted@.len(),
                windows@.len() == i,
                self.inv(),
                g == self.ghostdag_stores@[0]@,
                sorted@.to_set() == found@.to_set(),
                forall|j: int| 0 <= j < found@.len() ==> g.contains_key(#[trigger] found@[j]),
                forall|j: int| 0 <= j < i ==> #[trigger] self.window_of(sorted@[j], windows@[j]@),
            decreases sorted@.len() - i,
        {
            proof {
                assert(sorted@.to_set().contains(sorted@[i as int]));
                let t = choose|t: int| 0 <= t < found@.len() && found@[t] == sorted@[i as int];
            }
            let data = match self.ghostdag_stores[0].get_data(sorted[i]) {
                Ok(d) => d,
                Err(e) => {
                    assert(false);
                    return Err(e);
                },
            };
            let window = self.traversal_manager.block_window(&data, self.difficulty_adjustment_window_size);
            let ghost w0 = windows@;
            proof {
                assert(self.window_of(sorted@[i as int], window@));
            }
            windows.push(window);
            proof {
                assert forall|j: int| 0 <= j < i + 1 implies #[trigger] self.window_of(sorted@[j], windows@[j]@) by {
                    if j < i {
                        assert(windows@[j] == w0[j]);
                    }
                }
            }
            i = i + 1;
        }
        proof {
            assert forall|j: int| 0 <= j < hash_rows_view(windows@).len() implies #[trigger] self.window_of(
                sorted@[j],
                hash_rows_view(windows@)[j],
            ) by {
                assert(hash_rows_view(windows@)[j] == windows@[j]@);
            }
            assert(self.windows_of(sorted@, hash_rows_view(windows@)));
        }
        proof {
            assert(self.is_pp_anticone(pruning_point, sorted@));
        }
        match first_unstored(&self.headers_store, &self.ghostdag_stores[0], &windows) {
            Some(h) => {
                proof {
                    let ws = hash_rows_view(windows@);
                    assert(ws.len() == sorted@.len());
                    let t = choose|t: int|
                        0 <= t < flatten_hashes(ws).len() && #[trigger] flatten_hashes(ws)[t] == h
                            && !(self.headers_store@.contains_key(h) && self.ghostdag_stores@[0]@.contains_key(h))
                            && forall|u: int|
                            0 <= u < t ==> self.headers_store@.contains_key(flatten_hashes(ws)[u])
                                && self.ghostdag_stores@[0]@.contains_key(flatten_hashes(ws)[u]);
                    assert(!self.stores_window_block(flatten_hashes(ws)[t]));
                    assert(self.window_error(pruning_point, StoreError::KeyNotFound(h)));
                }
                return Err(StoreError::KeyNotFound(h));
            },
            None => {},
        }
        proof {
            assert forall|j: int| 0 <= j < sorted@.len() implies self.reachability_store@.contains_key(#[trigger] sorted@[j]) by {
                assert(sorted@.to_set().contains(sorted@[j]));
                let path = choose|path: Seq<BlockHash>|
                    #[trigger] is_down_path(rel, self.reachability_store@[pruning_point].ancestors, path)
                        && self.virtual_parents().contains(path[0]) && path.last() == sorted@[j];
                assert(rel.contains_key(path[path.len() - 1]));
            }
            assert forall|h: BlockHash|
                #[trigger] chains_of(self.reachability_store@, sorted@, self.ghostdag_k as nat).contains(h)
                    implies g.contains_key(h) by {
                lemma_chains_member(self.reachability_store@, sorted@, self.ghostdag_k as nat, h);
                let j = choose|j: int| 0 <= j < sorted@.len() && #[trigger] backward_chain(
                    self.reachability_store@,
                    sorted@[j],
                    self.ghostdag_k as nat,
                ).contains(h);
                assert(sorted@.to_set().contains(sorted@[j]));
                assert(self.pp_anticone_set(pruning_point).contains(sorted@[j]));
            }
        }
        let (daa, gd) = collect_trusted_data(
            &self.headers_store,
            &self.ghostdag_stores[0],
            &self.reachability_store,
            &sorted,
            &windows,
            self.ghostdag_k as usize,
        );
        proof {
            assert(self.is_trusted_data(sorted@, hash_rows_view(windows@), daa@, gd@));
        }
        let r = (sorted, daa, gd);
        assert(self.is_pp_anticone(pruning_point, r.0@));
        assert(self.is_trusted_data(r.0@, hash_rows_view(windows@), r.1@, r.2@));
        assert(exists|ws: Seq<Seq<BlockHash>>| #[trigger] self.is_trusted_data(r.0@, ws, r.1@, r.2@));
        Ok(r)
    }
    /// The pruning point recorded in the pruning store.
    pub open spec fn current_pruning_point(&self) -> BlockHash {
        self.pruning_store.info->Some_0.pruning_point
    }

    /// `p` is the pruning point proof of `pp` built from the stores.
    pub open spec fn is_proof_of(&self, pp: BlockHash, p: Seq<Seq<HeaderView>>) -> bool {
        &&& pp == self.genesis_hash ==> p.len() == 0
        &&& pp != self.genesis_hash ==> p.len() == self.max_block_level + 1 && forall|l: int|
            0 <= l <= self.max_block_level ==> level_headers_ok(
                self.relations_stores@[l]@,
                self.ghostdag_stores@[l]@,
                self.reachability_store@[self.proof_tip(pp, l)].ancestors,
                self.headers_store@,
                self.proof_root(pp, l),
                #[trigger] p[l],
            )
    }

    /// `c` holds the proof, the anticone and the trusted data of its pruning
    /// point as computed from the stores.
    pub open spec fn holds_data_for(&self, c: CachedData) -> bool {
        &&& self.is_proof_of(c.pruning_point, proof_view(c.proof@))
        &&& self.is_pp_anticone(c.pruning_point, c.anticone@)
        &&& exists|ws: Seq<Seq<BlockHash>>|
            #[trigger] self.is_trusted_data(c.anticone@, ws, c.daa_window_headers@, c.ghostdag_blocks@)
    }

    /// The stores hold what serving the data of the pruning point `pp` reads.
    pub open spec fn can_serve(&self, pp: BlockHash) -> bool {
        &&& self.inv()
        &&& self.can_build_proof(pp)
        &&& self.can_compute_anticone(pp)
    }

    /// The cache holds the data of `pp`.
    pub open spec fn cache_is_for(&self, pp: BlockHash) -> bool {
        &&& self.cached_pruning_point_proof_and_anticone is Some
        &&& self.cached_pruning_point_proof_and_anticone->Some_0.pruning_point == pp
    }

    /// `self` and `other` differ at most in their cache.
    pub open spec fn same_except_cache(&self, other: &Self) -> bool {
        &&& self.headers_store == other.headers_store
        &&& self.reachability_store == other.reachability_store
        &&& self.parents_manager == other.parents_manager
        &&& self.ghostdag_stores == other.ghostdag_stores
        &&& self.relations_stores == other.relations_stores
        &&& self.pruning_store == other.pruning_store
        &&& self.past_pruning_points_store == other.past_pruning_points_store
        &&& self.virtual_state == other.virtual_state
        &&& self.body_tips == other.body_tips
        &&& self.headers_selected_tip == other.headers_selected_tip
        &&& self.selected_chain == other.selected_chain
        &&& self.ghostdag_managers == other.ghostdag_managers
        &&& self.traversal_manager == other.traversal_manager
        &&& self.pow == other.pow
        &&& self.max_block_level == other.max_block_level
        &&& self.genesis_hash == other.genesis_hash
        &&& self.pruning_proof_m == other.pruning_proof_m
        &&& self.difficulty_adjustment_window_size == other.difficulty_adjustment_window_size
        &&& self.ghostdag_k == other.ghostdag_k
    }

    /// `after` is `before` with its cache brought up to date, which answered
    /// `r`: nothing changes where the cache already is for the current
    /// pruning point; otherwise the cache gets the data of the current
    /// pruning point, or, where a difficulty window names a block that is not
    /// stored, nothing changes and that block is reported.
    pub open spec fn cache_updated(before: Self, after: Self, r: Result<(), StoreError>) -> bool {
        let pp = before.current_pruning_point();
        if before.cache_is_for(pp) {
            after == before && r is Ok
        } else {
            match r {
                Ok(_) => {
                    &&& before.same_except_cache(&after)
                    &&& after.cache_is_for(pp)
                    &&& before.holds_data_for(after.cached_pruning_point_proof_and_anticone->Some_0)
                },
                Err(e) => after == before && before.window_error(pp, e),
            }
        }
    }

    /// `r` is what serving the proof answered, taking the manager from
    /// `before` to `after`.
    pub open spec fn proof_served(before: Self, after: Self, r: Result<PruningPointProof, StoreError>) -> bool {
        match r {
            Ok(p) => Self::cache_updated(before, after, Ok(())) && proof_view(p@) == proof_view(
                after.cached_pruning_point_proof_and_anticone->Some_0.proof@,
            ),
            Err(e) => Self::cache_updated(before, after, Err(e)),
        }
    }

    /// `r` is what serving the anticone and trusted data answered, taking the
    /// manager from `before` to `after`.
    pub open spec fn anticone_served(
        before: Self,
        after: Self,
        r: Result<(Vec<BlockHash>, Vec<TrustedHeader>, Vec<TrustedGhostdagData>), StoreError>,
    ) -> bool {
        match r {
            Ok((a, daa, gd)) => {
                let c = after.cached_pruning_point_proof_and_anticone->Some_0;
                &&& Self::cache_updated(before, after, Ok(()))
                &&& a@ == c.anticone@
                &&& same_trusted_headers(daa@, c.daa_window_headers@)
                &&& same_trusted_ghostdag(gd@, c.ghostdag_blocks@)
            },
            Err(e) => Self::cache_updated(before, after, Err(e)),
        }
    }

    /// Fills the cache with the data of the current pruning point unless it
    /// already holds it.
    fn update_cache_if_needed(&mut self) -> (r: Result<(), StoreError>)
        requires
            old(self).pruning_store.info is Some,
            old(self).cache_is_for(old(self).current_pruning_point()) || old(self).can_serve(
                old(self).current_pruning_point(),
            ),
        ensures
            Self::cache_updated(*old(self), *final(self), r),
    {
        let pp = match self.pruning_store.pruning_point() {
            Ok(p) => p,
            Err(e) => {
                assert(false);
                return Err(e);
            },
        };
        let hit = match &self.cached_pruning_point_proof_and_anticone {
            Some(c) => c.pruning_point == pp,
            None => false,
        };
        if hit {
            return Ok(());
        }
        let proof = self.build_pruning_point_proof(pp);
        proof {
            if pp != self.genesis_hash {
                assert forall|l: int| 0 <= l <= self.max_block_level implies level_headers_ok(
                    self.relations_stores@[l]@,
                    self.ghostdag_stores@[l]@,
                    self.reachability_store@[self.proof_tip(pp, l)].ancestors,
                    self.headers_store@,
                    self.proof_root(pp, l),
                    #[trigger] proof_view(proof@)[l],
                ) by {
                    assert(proof_view(proof@)[l] == headers_view(proof@[l]@));
                }
            }
            assert(self.is_proof_of(pp, proof_view(proof@)));
        }
        match self.calculate_pruning_point_anticone_and_trusted_data(pp) {
            Ok((anticone, daa_window_headers, ghostdag_blocks)) => {
                let ghost before = *self;
                let ghost ws = choose|ws: Seq<Seq<BlockHash>>|
                    #[trigger] self.is_trusted_data(anticone@, ws, daa_window_headers@, ghostdag_blocks@);
                self.cached_pruning_point_proof_and_anticone = Some(
                    CachedData { pruning_point: pp, proof, anticone, daa_window_headers, ghostdag_blocks },
                );
                proof {
                    let c = self.cached_pruning_point_proof_and_anticone->Some_0;
                    assert(before.is_trusted_data(c.anticone@, ws, c.daa_window_headers@, c.ghostdag_blocks@));
                    assert(before.holds_data_for(c));
                    assert(before.same_except_cache(&*self));
                }
                Ok(())
            },
            Err(e) => Err(e),
        }
    }

    /// The pruning point proof of the current pruning point, built once per
    /// pruning point and then served from the cache. The stores need to hold
    /// what building reads only where the cache is not for that point.
    pub fn get_pruning_point_proof(&mut self) -> (r: Result<PruningPointProof, StoreError>)
        requires
            old(self).pruning_store.info is Some,
            old(self).cache_is_for(old(self).current_pruning_point()) || old(self).can_serve(
                old(self).current_pruning_point(),
            ),
        ensures
            Self::proof_served(*old(self), *final(self), r),
    {
        match self.update_cache_if_needed() {
            Ok(()) => {},
            Err(e) => {
                return Err(e);
            },
        }
        match &self.cached_pruning_point_proof_and_anticone {
            Some(c) => Ok(copy_proof(&c.proof)),
            None => {
                assert(false);
                Err(StoreError::ValueNotSet)
            },
        }
    }

    /// The anticone of the current pruning point with its trusted data,
    /// computed once per pruning point and then served from the cache.
    pub fn get_pruning_point_anticone_and_trusted_data(&mut self) -> (r: Result<
        (Vec<BlockHash>, Vec<TrustedHeader>, Vec<TrustedGhostdagData>),
        StoreError,
    >)
        requires
            old(self).pruning_store.info is Some,
            old(self).cache_is_for(old(self).current_pruning_point()) || old(self).can_serve(
                old(self).current_pruning_point(),
            ),
        ensures
            Self::anticone_served(*old(self), *final(self), r),
    {
        match self.update_cache_if_needed() {
            Ok(()) => {},
            Err(e) => {
                return Err(e);
            },
        }
        match &self.cached_pruning_point_proof_and_anticone {
            Some(c) => Ok(
                (
                    copy_hashes(&c.anticone),
                    copy_trusted_headers(&c.daa_window_headers),
                    copy_trusted_ghostdag(&c.ghostdag_blocks),
                ),
            ),
            None => {
                assert(false);
                Err(StoreError::ValueNotSet)
            },
        }
    }
    /// Serving the proof twice in a row gives the same proof both times, and
    /// the second serving changes nothing.
    pub proof fn proof_served_twice_is_stable(
        m0: Self,
        m1: Self,
        m2: Self,
        p1: PruningPointProof,
        p2: PruningPointProof,
    )
        requires
            Self::proof_served(m0, m1, Ok(p1)),
            Self::proof_served(m1, m2, Ok(p2)),
        ensures
            m2 == m1,
            proof_view(p2@) == proof_view(p1@),
    {
    }

    /// Serving the anticone twice in a row gives the same anticone and the
    /// same trusted data both times, and the second serving changes nothing.
    pub proof fn anticone_served_twice_is_stable(
        m0: Self,
        m1: Self,
        m2: Self,
        a1: (Vec<BlockHash>, Vec<TrustedHeader>, Vec<TrustedGhostdagData>),
        a2: (Vec<BlockHash>, Vec<TrustedHeader>, Vec<TrustedGhostdagData>),
    )
        requires
            Self::anticone_served(m0, m1, Ok(a1)),
            Self::anticone_served(m1, m2, Ok(a2)),
        ensures
            m2 == m1,
            a2.0@ == a1.0@,
            same_trusted_headers(a2.1@, a1.1@),
            same_trusted_ghostdag(a2.2@, a1.2@),
    {
    }

    /// After a successful serving the cache is for the current pruning point,
    /// and where the cache held the data of its own pruning point before (or
    /// nothing), the proof served is the proof of the current pruning point.
    pub proof fn served_proof_is_current(m0: Self, m1: Self, p: PruningPointProof)
        requires
            Self::proof_served(m0, m1, Ok(p)),
            m0.cached_pruning_point_proof_and_anticone is None || m0.holds_data_for(
                m0.cached_pruning_point_proof_and_anticone->Some_0,
            ),
        ensures
            m1.cache_is_for(m1.current_pruning_point()),
            m1.is_proof_of(m1.current_pruning_point(), proof_view(p@)),
    {
    }
    /// No block of the anticone of `pp` is `pp`, in the past of `pp`, or in
    /// the future of `pp`.
    pub proof fn anticone_blocks_are_unordered_with_pp(&self, pp: BlockHash, anticone: Seq<BlockHash>)
        requires
            self.inv(),
            self.reachability_store@.contains_key(pp),
            self.is_pp_anticone(pp, anticone),
        ensures
            forall|i: int|
                0 <= i < anticone.len() ==> #[trigger] anticone[i] != pp
                    && !self.reachability_store@[pp].ancestors.contains(anticone[i])
                    && !self.reachability_store@[anticone[i]].ancestors.contains(pp),
    {
        let reach = self.reachability_store@;
        let rel = self.relations_stores@[0]@;
        assert forall|i: int| 0 <= i < anticone.len() implies #[trigger] anticone[i] != pp
            && !reach[pp].ancestors.contains(anticone[i]) && !reach[anticone[i]].ancestors.contains(pp) by {
            assert(anticone.to_set().contains(anticone[i]));
            assert(self.pp_anticone_set(pp).contains(anticone[i]));
            let path = choose|path: Seq<BlockHash>|
                #[trigger] is_down_path(rel, reach[pp].ancestors, path) && self.virtual_parents().contains(path[0])
                    && path.last() == anticone[i];
            assert(!reach[pp].ancestors.contains(path[path.len() - 1]));
            assert(reach[pp].ancestors.contains(pp));
        }
    }

    /// The trusted data sends each block of the difficulty windows once and no
    /// other block, and the GHOSTDAG data of each block of the selected
    /// chains once and of no other block.
    pub proof fn trusted_data_sends_each_block_once(
        &self,
        anticone: Seq<BlockHash>,
        windows: Seq<Seq<BlockHash>>,
        daa: Seq<TrustedHeader>,
        ghostdag: Seq<TrustedGhostdagData>,
    )
        requires
            self.is_trusted_data(anticone, windows, daa, ghostdag),
            forall|h: BlockHash| #[trigger] self.headers_store@.contains_key(h) ==> self.headers_store@[h].0.hash == h,
        ensures
            forall|i: int, j: int| 0 <= i < j < daa.len() ==> (#[trigger] daa[i]).header@.hash != (#[trigger] daa[j]).header@.hash,
            forall|h: BlockHash|
                flatten_hashes(windows).contains(h) <==> exists|i: int| 0 <= i < daa.len() && (#[trigger] daa[i]).header@.hash == h,
            forall|i: int, j: int| 0 <= i < j < ghostdag.len() ==> (#[trigger] ghostdag[i]).hash != (#[trigger] ghostdag[j]).hash,
            forall|h: BlockHash|
                chains_of(self.reachability_store@, anticone, self.ghostdag_k as nat).contains(h) <==> exists|i: int|
                    0 <= i < ghostdag.len() && (#[trigger] ghostdag[i]).hash == h,
    {
        let fw = flatten_hashes(windows);
        let dw = first_occurrences(fw);
        let fc = chains_of(self.reachability_store@, anticone, self.ghostdag_k as nat);
        let dc = first_occurrences(fc);
        lemma_first_occurrences_props(fw);
        lemma_first_occurrences_props(fc);
        assert forall|i: int| 0 <= i < daa.len() implies (#[trigger] daa[i]).header@.hash == dw[i] by {
            assert(dw.contains(dw[i]));
            assert(fw.contains(dw[i]));
        }
        assert forall|i: int, j: int| 0 <= i < j < daa.len() implies (#[trigger] daa[i]).header@.hash != (#[trigger] daa[j]).header@.hash by {
            assert(daa[i].header@.hash == dw[i] && daa[j].header@.hash == dw[j]);
        }
        assert forall|h: BlockHash|
            fw.contains(h) <==> exists|i: int| 0 <= i < daa.len() && (#[trigger] daa[i]).header@.hash == h by {
            if fw.contains(h) {
                assert(dw.contains(h));
                let i = choose|i: int| 0 <= i < dw.len() && dw[i] == h;
                assert(daa[i].header@.hash == h);
            }
            if exists|i: int| 0 <= i < daa.len() && (#[trigger] daa[i]).header@.hash == h {
                let i = choose|i: int| 0 <= i < daa.len() && (#[trigger] daa[i]).header@.hash == h;
                assert(dw[i] == h);
                assert(dw.contains(h));
            }
        }
        assert forall|h: BlockHash|
            fc.contains(h) <==> exists|i: int| 0 <= i < ghostdag.len() && (#[trigger] ghostdag[i]).hash == h by {
            if fc.contains(h) {
                assert(dc.contains(h));
                let i = choose|i: int| 0 <= i < dc.len() && dc[i] == h;
                assert(ghostdag[i].hash == h);
            }
            if exists|i: int| 0 <= i < ghostdag.len() && (#[trigger] ghostdag[i]).hash == h {
                let i = choose|i: int| 0 <= i < ghostdag.len() && (#[trigger] ghostdag[i]).hash == h;
                assert(dc.contains(dc[i]));
            }
        }
    }
    /// The levels of a proof of `pp` connect: each level starts at the block
    /// where the traversal of that level must begin, wherever that block is in
    /// the past of the level's selected tip. At the top level that is the
    /// block `d2m` at depth `2m` below the tip. Below it, it is the block `dm`
    /// at depth `m` below the next level's tip where `dm` is on the selected
    /// chain of `d2m`, and otherwise the first block of `dm`'s selected chain
    /// (at this level) in the past of `d2m`.
    pub proof fn proof_levels_connect(&self, pp: BlockHash, p: Seq<Seq<HeaderView>>, l: int)
        requires
            self.is_proof_of(pp, p),
            pp != self.genesis_hash,
            0 <= l <= self.max_block_level,
        ensures
            ({
                let g = self.ghostdag_stores@[l]@;
                let tip = self.proof_tip(pp, l);
                let d2m = walk_to_depth(g, g[tip].blue_score as int, 2 * self.pruning_proof_m, tip);
                let start = if l == self.max_block_level {
                    d2m
                } else {
                    let g1 = self.ghostdag_stores@[l + 1]@;
                    let tip1 = self.proof_tip(pp, l + 1);
                    let dm = walk_to_depth(g1, g1[tip1].blue_score as int, self.pruning_proof_m as int, tip1);
                    if self.reachability_store@[d2m].chain.contains(dm) {
                        dm
                    } else {
                        walk_to_common_ancestor(g, self.reachability_store@[d2m].ancestors, dm)
                    }
                };
                self.reachability_store@[tip].ancestors.contains(start) ==> p[l].len() > 0 && p[l][0].hash
                    == start
            }),
    {
        assert(level_headers_ok(
            self.relations_stores@[l]@,
            self.ghostdag_stores@[l]@,
            self.reachability_store@[self.proof_tip(pp, l)].ancestors,
            self.headers_store@,
            self.proof_root(pp, l),
            p[l],
        ));
    }
    /// The trusted headers come from the difficulty windows that the
    /// traversal manager returns for the anticone blocks' GHOSTDAG data and
    /// the difficulty window size: each window is such a window of its block,
    /// and each header sent is of a block of one of these windows.
    pub proof fn trusted_headers_come_from_block_windows(
        &self,
        anticone: Seq<BlockHash>,
        windows: Seq<Seq<BlockHash>>,
        daa: Seq<TrustedHeader>,
        ghostdag: Seq<TrustedGhostdagData>,
    )
        requires
            self.is_trusted_data(anticone, windows, daa, ghostdag),
            forall|h: BlockHash| #[trigger] self.headers_store@.contains_key(h) ==> self.headers_store@[h].0.hash == h,
        ensures
            windows.len() == anticone.len(),
            forall|j: int|
                #![trigger anticone[j]]
                0 <= j < anticone.len() ==> exists|d: GhostdagData, v: Vec<BlockHash>|
                    d@ == self.ghostdag_stores@[0]@[anticone[j]] && v@ == windows[j] && #[trigger] call_ensures(
                        T::block_window,
                        (&self.traversal_manager, &d, self.difficulty_adjustment_window_size),
                        v,
                    ),
            forall|i: int|
                #![trigger daa[i]]
                0 <= i < daa.len() ==> exists|j: int|
                    #![trigger windows[j]]
                    0 <= j < windows.len() && windows[j].contains(daa[i].header@.hash),
    {
        assert forall|j: int| #![trigger anticone[j]] 0 <= j < anticone.len() implies exists|d: GhostdagData, v: Vec<BlockHash>|
            d@ == self.ghostdag_stores@[0]@[anticone[j]] && v@ == windows[j] && #[trigger] call_ensures(
                T::block_window,
                (&self.traversal_manager, &d, self.difficulty_adjustment_window_size),
                v,
            ) by {
            assert(self.window_of(anticone[j], windows[j]));
        }
        let fw = flatten_hashes(windows);
        let dw = first_occurrences(fw);
        lemma_first_occurrences_props(fw);
        assert forall|i: int| #![trigger daa[i]] 0 <= i < daa.len() implies exists|j: int|
            #![trigger windows[j]]
            0 <= j < windows.len() && windows[j].contains(daa[i].header@.hash) by {
            assert(dw.contains(dw[i]));
            assert(fw.contains(dw[i]));
            assert(self.headers_store@[dw[i]].0.hash == dw[i]);
            assert(daa[i].header@.hash == dw[i]);
            lemma_flatten_member(windows, daa[i].header@.hash);
            let j = choose|j: int| 0 <= j < windows.len() && #[trigger] windows[j].contains(daa[i].header@.hash);
            assert(windows[j].contains(daa[i].header@.hash));
        }
    }
}

} // verus!
