//! Plain-value model of the consensus data that the pruning-proof logic reads:
//! block identifiers, headers, GHOSTDAG data and the block ordering used to
//! walk the DAG.
use vstd::prelude::*;

verus! {

/// Identifier of a block (its hash). Blocks are found again and ordered by it.
pub type BlockHash = u64;

/// Accumulated proof-of-work of a block's past.
pub type BlueWork = u128;

/// A block level, as derived from the block's proof of work.
pub type BlockLevel = u8;

/// The GHOSTDAG `k` parameter type.
pub type KType = u16;

/// The virtual genesis that every block descends from in the reachability
/// tree and in the relations stores.
pub const ORIGIN: BlockHash = 0xffff_ffff_ffff_fffeu64;

/// A block header.
pub struct Header {
    pub hash: BlockHash,
    pub version: u16,
    pub parents_by_level: Vec<Vec<BlockHash>>,
    pub hash_merkle_root: BlockHash,
    pub accepted_id_merkle_root: BlockHash,
    pub utxo_commitment: BlockHash,
    pub timestamp: u64,
    pub bits: u32,
    pub nonce: u64,
    pub daa_score: u64,
    pub blue_work: BlueWork,
    pub blue_score: u64,
    pub pruning_point: BlockHash,
}

/// The mathematical value of a [`Header`].
pub struct HeaderView {
    pub hash: BlockHash,
    pub version: u16,
    pub parents_by_level: Seq<Seq<BlockHash>>,
    pub hash_merkle_root: BlockHash,
    pub accepted_id_merkle_root: BlockHash,
    pub utxo_commitment: BlockHash,
    pub timestamp: u64,
    pub bits: u32,
    pub nonce: u64,
    pub daa_score: u64,
    pub blue_work: BlueWork,
    pub blue_score: u64,
    pub pruning_point: BlockHash,
}

pub open spec fn hash_rows_view(rows: Seq<Vec<BlockHash>>) -> Seq<Seq<BlockHash>> {
    rows.map_values(|r: Vec<BlockHash>| r@)
}

impl View for Header {
    type V = HeaderView;

    open spec fn view(&self) -> HeaderView {
        HeaderView {
            hash: self.hash,
            version: self.version,
            parents_by_level: hash_rows_view(self.parents_by_level@),
            hash_merkle_root: self.hash_merkle_root,
            accepted_id_merkle_root: self.accepted_id_merkle_root,
            utxo_commitment: self.utxo_commitment,
            timestamp: self.timestamp,
            bits: self.bits,
            nonce: self.nonce,
            daa_score: self.daa_score,
            blue_work: self.blue_work,
            blue_score: self.blue_score,
            pruning_point: self.pruning_point,
        }
    }
}

pub proof fn lemma_push_to_set<A>(s: Seq<A>, x: A)
    ensures
        s.push(x).to_set() == s.to_set().insert(x),
{
    let t = s.push(x);
    assert forall|y: A| t.contains(y) <==> s.contains(y) || y == x by {
        if t.contains(y) {
            let k = choose|k: int| 0 <= k < t.len() && t[k] == y;
            if k < s.len() {
                assert(s[k] == y);
            }
        }
        if s.contains(y) {
            let k = choose|k: int| 0 <= k < s.len() && s[k] == y;
            assert(t[k] == y);
        }
        if y == x {
            assert(t[s.len() as int] == x);
        }
    }
    assert(t.to_set() =~= s.to_set().insert(x));
}

/// Whether the list holds `x`.
pub fn contains_hash(v: &Vec<BlockHash>, x: BlockHash) -> (r: bool)
    ensures
        r == v@.contains(x),
{
    let mut i: usize = 0;
    while i < v.len()
        invariant
            i <= v.len(),
            forall|j: int| 0 <= j < i ==> v@[j] != x,
        decreases v.len() - i,
    {
        if v[i] == x {
            return true;
        }
        i = i + 1;
    }
    false
}

/// A copy of a list of hashes.
pub fn copy_hashes(v: &Vec<BlockHash>) -> (r: Vec<BlockHash>)
    ensures
        r@ == v@,
{
    let mut r: Vec<BlockHash> = Vec::new();
    let mut i: usize = 0;
    while i < v.len()
        invariant
            i <= v.len(),
            r@ == v@.subrange(0, i as int),
        decreases v.len() - i,
    {
        r.push(v[i]);
        i = i + 1;
        assert(r@ =~= v@.subrange(0, i as int));
    }
    assert(v@.subrange(0, v.len() as int) =~= v@);
    r
}

impl Header {
    /// A copy of the header.
    pub fn copy(&self) -> (r: Header)
        ensures
            r@ == self@,
    {
        let mut rows: Vec<Vec<BlockHash>> = Vec::new();
        let mut i: usize = 0;
        while i < self.parents_by_level.len()
            invariant
                i <= self.parents_by_level.len(),
                rows@.len() == i,
                forall|j: int| 0 <= j < i ==> #[trigger] rows@[j]@ == self.parents_by_level@[j]@,
            decreases self.parents_by_level.len() - i,
        {
            let row = copy_hashes(&self.parents_by_level[i]);
            rows.push(row);
            i = i + 1;
        }
        assert(hash_rows_view(rows@) =~= hash_rows_view(self.parents_by_level@));
        Header {
            hash: self.hash,
            version: self.version,
            parents_by_level: rows,
            hash_merkle_root: self.hash_merkle_root,
            accepted_id_merkle_root: self.accepted_id_merkle_root,
            utxo_commitment: self.utxo_commitment,
            timestamp: self.timestamp,
            bits: self.bits,
            nonce: self.nonce,
            daa_score: self.daa_score,
            blue_work: self.blue_work,
            blue_score: self.blue_score,
            pruning_point: self.pruning_point,
        }
    }
}


/// A block together with its accumulated work, ordered by work and then by
/// hash.
#[derive(Clone, Copy, Debug, PartialEq, Eq, Structural)]
pub struct SortableBlock {
    pub hash: BlockHash,
    pub blue_work: BlueWork,
}

/// The strict order of sortable blocks: by blue work, ties broken by hash.
pub open spec fn sortable_lt(a: SortableBlock, b: SortableBlock) -> bool {
    a.blue_work < b.blue_work || (a.blue_work == b.blue_work && a.hash < b.hash)
}

pub open spec fn sortable_le(a: SortableBlock, b: SortableBlock) -> bool {
    sortable_lt(a, b) || a == b
}

impl SortableBlock {
    pub fn new(hash: BlockHash, blue_work: BlueWork) -> (r: SortableBlock)
        ensures
            r.hash == hash,
            r.blue_work == blue_work,
    {
        SortableBlock { hash, blue_work }
    }

    /// Whether `self` orders strictly before `other`.
    pub fn less_than(&self, other: &SortableBlock) -> (r: bool)
        ensures
            r == sortable_lt(*self, *other),
    {
        self.blue_work < other.blue_work || (self.blue_work == other.blue_work && self.hash
            < other.hash)
    }
}

/// `s` is in strictly ascending order.
pub open spec fn strictly_sorted(s: Seq<SortableBlock>) -> bool {
    forall|i: int, j: int| 0 <= i < j < s.len() ==> sortable_lt(#[trigger] s[i], #[trigger] s[j])
}

/// The blocks of `v` in ascending order.
pub fn sort_blocks_ascending(v: &Vec<SortableBlock>) -> (r: Vec<SortableBlock>)
    requires
        v@.no_duplicates(),
    ensures
        strictly_sorted(r@),
        r@.to_set() == v@.to_set(),
        r@.len() == v@.len(),
{
    let mut r: Vec<SortableBlock> = Vec::new();
    let mut i: usize = 0;
    while i < v.len()
        invariant
            i <= v@.len(),
            v@.no_duplicates(),
            strictly_sorted(r@),
            r@.to_set() == v@.take(i as int).to_set(),
            r@.len() == i,
        decreases v@.len() - i,
    {
        let x = v[i];
        let mut pos: usize = 0;
        while pos < r.len() && r[pos].less_than(&x)
            invariant
                pos <= r@.len(),
                forall|k: int| 0 <= k < pos ==> sortable_lt(#[trigger] r@[k], x),
            decreases r@.len() - pos,
        {
            pos = pos + 1;
        }
        proof {
            assert(!v@.take(i as int).contains(x)) by {
                if v@.take(i as int).contains(x) {
                    let k = choose|k: int| 0 <= k < i && v@.take(i as int)[k] == x;
                    assert(v@[k] == v@[i as int]);
                }
            }
            assert(!r@.contains(x)) by {
                if r@.contains(x) {
                    assert(r@.to_set().contains(x));
                }
            }
            if pos < r@.len() {
                assert(r@[pos as int] != x);
                assert(sortable_lt(x, r@[pos as int]));
            }
        }
        let ghost prev = r@;
        r.insert(pos, x);
        proof {
            assert(r@ == prev.insert(pos as int, x));
            assert forall|a: int, b: int| 0 <= a < b < r@.len() implies sortable_lt(
                #[trigger] r@[a],
                #[trigger] r@[b],
            ) by {
                if b < pos {
                    assert(r@[a] == prev[a] && r@[b] == prev[b]);
                } else if b == pos {
                    assert(r@[a] == prev[a]);
                } else if a < pos {
                    assert(r@[a] == prev[a] && r@[b] == prev[b - 1]);
                    assert(sortable_lt(prev[pos as int], prev[b - 1]) || pos == b - 1);
                } else if a == pos {
                    assert(r@[b] == prev[b - 1]);
                    assert(sortable_lt(x, prev[pos as int]));
                    assert(sortable_lt(prev[pos as int], prev[b - 1]) || pos == b - 1);
                } else {
                    assert(r@[a] == prev[a - 1] && r@[b] == prev[b - 1]);
                }
            }
            assert(v@.take(i + 1) =~= v@.take(i as int).push(x));
            lemma_push_to_set(v@.take(i as int), x);
            assert forall|y: SortableBlock| r@.contains(y) <==> prev.contains(y) || y == x by {
                if r@.contains(y) {
                    let k = choose|k: int| 0 <= k < r@.len() && r@[k] == y;
                    if k < pos {
                        assert(prev[k] == y);
                    } else if k > pos {
                        assert(prev[k - 1] == y);
                    }
                }
                if prev.contains(y) {
                    let k = choose|k: int| 0 <= k < prev.len() && prev[k] == y;
                    if k < pos {
                        assert(r@[k] == y);
                    } else {
                        assert(r@[k + 1] == y);
                    }
                }
                if y == x {
                    assert(r@[pos as int] == x);
                }
            }
            assert(r@.to_set() =~= prev.to_set().insert(x));
        }
        i = i + 1;
    }
    assert(v@.take(v@.len() as int) =~= v@);
    r
}

/// The GHOSTDAG data of a block.
pub struct GhostdagData {
    pub blue_score: u64,
    pub blue_work: BlueWork,
    pub selected_parent: BlockHash,
    pub mergeset_blues: Vec<BlockHash>,
    pub mergeset_reds: Vec<BlockHash>,
    pub blues_anticone_sizes: Vec<(BlockHash, KType)>,
}

/// The mathematical value of a [`GhostdagData`].
pub struct GhostdagDataView {
    pub blue_score: u64,
    pub blue_work: BlueWork,
    pub selected_parent: BlockHash,
    pub mergeset_blues: Seq<BlockHash>,
    pub mergeset_reds: Seq<BlockHash>,
    pub blues_anticone_sizes: Seq<(BlockHash, KType)>,
}

impl View for GhostdagData {
    type V = GhostdagDataView;

    open spec fn view(&self) -> GhostdagDataView {
        GhostdagDataView {
            blue_score: self.blue_score,
            blue_work: self.blue_work,
            selected_parent: self.selected_parent,
            mergeset_blues: self.mergeset_blues@,
            mergeset_reds: self.mergeset_reds@,
            blues_anticone_sizes: self.blues_anticone_sizes@,
        }
    }
}

/// The part of the GHOSTDAG data that walks along the selected chain need.
#[derive(Clone, Copy, Debug, PartialEq, Eq, Structural)]
pub struct CompactGhostdagData {
    pub blue_score: u64,
    pub blue_work: BlueWork,
    pub selected_parent: BlockHash,
}

pub open spec fn compact_of(d: GhostdagDataView) -> CompactGhostdagData {
    CompactGhostdagData {
        blue_score: d.blue_score,
        blue_work: d.blue_work,
        selected_parent: d.selected_parent,
    }
}

impl GhostdagData {
    /// A copy of the data.
    pub fn copy(&self) -> (r: GhostdagData)
        ensures
            r@ == self@,
    {
        let mut sizes: Vec<(BlockHash, KType)> = Vec::new();
        let mut i: usize = 0;
        while i < self.blues_anticone_sizes.len()
            invariant
                i <= self.blues_anticone_sizes.len(),
                sizes@ == self.blues_anticone_sizes@.subrange(0, i as int),
            decreases self.blues_anticone_sizes.len() - i,
        {
            sizes.push(self.blues_anticone_sizes[i]);
            i = i + 1;
            assert(sizes@ =~= self.blues_anticone_sizes@.subrange(0, i as int));
        }
        assert(self.blues_anticone_sizes@.subrange(0, self.blues_anticone_sizes.len() as int)
            =~= self.blues_anticone_sizes@);
        GhostdagData {
            blue_score: self.blue_score,
            blue_work: self.blue_work,
            selected_parent: self.selected_parent,
            mergeset_blues: copy_hashes(&self.mergeset_blues),
            mergeset_reds: copy_hashes(&self.mergeset_reds),
            blues_anticone_sizes: sizes,
        }
    }

    pub fn to_compact(&self) -> (r: CompactGhostdagData)
        ensures
            r == compact_of(self@),
    {
        CompactGhostdagData {
            blue_score: self.blue_score,
            blue_work: self.blue_work,
            selected_parent: self.selected_parent,
        }
    }
}

/// A header handed over together with its GHOSTDAG data.
pub struct TrustedHeader {
    pub header: Header,
    pub ghostdag: GhostdagData,
}

/// GHOSTDAG data handed over for a block.
pub struct TrustedGhostdagData {
    pub hash: BlockHash,
    pub ghostdag: GhostdagData,
}

/// A block handed over as trusted, together with its GHOSTDAG data.
pub struct TrustedBlock {
    pub header: Header,
    pub ghostdag: GhostdagData,
}

/// A pruning point proof: for each block level, the headers of that level.
pub type PruningPointProof = Vec<Vec<Header>>;

pub open spec fn headers_view(v: Seq<Header>) -> Seq<HeaderView> {
    v.map_values(|h: Header| h@)
}

pub open spec fn proof_view(p: Seq<Vec<Header>>) -> Seq<Seq<HeaderView>> {
    p.map_values(|row: Vec<Header>| headers_view(row@))
}

/// A copy of a list of headers.
pub fn copy_headers(v: &Vec<Header>) -> (r: Vec<Header>)
    ensures
        headers_view(r@) == headers_view(v@),
{
    let mut r: Vec<Header> = Vec::new();
    let mut i: usize = 0;
    while i < v.len()
        invariant
            i <= v.len(),
            r@.len() == i,
            forall|j: int| 0 <= j < i ==> #[trigger] r@[j]@ == v@[j]@,
        decreases v.len() - i,
    {
        r.push(v[i].copy());
        i = i + 1;
    }
    assert(headers_view(r@) =~= headers_view(v@));
    r
}

/// A copy of a pruning point proof.
pub fn copy_proof(p: &PruningPointProof) -> (r: PruningPointProof)
    ensures
        proof_view(r@) == proof_view(p@),
{
    let mut r: PruningPointProof = Vec::new();
    let mut i: usize = 0;
    while i < p.len()
        invariant
            i <= p.len(),
            r@.len() == i,
            forall|j: int| 0 <= j < i ==> headers_view(#[trigger] r@[j]@) == headers_view(p@[j]@),
        decreases p.len() - i,
    {
        r.push(copy_headers(&p[i]));
        i = i + 1;
    }
    assert(proof_view(r@) =~= proof_view(p@));
    r
}

} // verus!
