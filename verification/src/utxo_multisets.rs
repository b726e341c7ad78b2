//! The UTXO multiset of each block: a store of finalized multiset hashes, by
//! block, that never overwrites an entry, with writes that can be staged in
//! a batch and applied later.
use std::collections::HashMap;
use vstd::prelude::*;

use crate::model::BlockHash;
use crate::stores::StoreError;

verus! {

broadcast use vstd::std_specs::hash::group_hash_axioms;

/// A 3072-bit unsigned integer, as 48 little-endian 64-bit words.
#[derive(Clone, Copy, Debug)]
pub struct Uint3072 {
    pub words: [u64; 48],
}

impl View for Uint3072 {
    type V = Seq<u64>;

    open spec fn view(&self) -> Seq<u64> {
        self.words@
    }
}

/// The words of the integer one.
pub open spec fn one_words() -> Seq<u64> {
    Seq::new(48, |i: int| if i == 0 { 1u64 } else { 0u64 })
}

impl Uint3072 {
    /// The integer one.
    pub fn one() -> (r: Uint3072)
        ensures
            r@ == one_words(),
    {
        let mut words = [0u64; 48];
        words[0] = 1;
        let r = Uint3072 { words };
        assert(r@ =~= one_words());
        r
    }

    /// Whether the integer is one.
    pub fn is_one(&self) -> (r: bool)
        ensures
            r == (self@ == one_words()),
    {
        proof {
            assert(self@.len() == 48);
        }
        let mut i: usize = 0;
        while i < 48
            invariant
                i <= 48,
                self@.len() == 48,
                forall|j: int| 0 <= j < i ==> self@[j] == one_words()[j],
            decreases 48 - i,
        {
            let expected: u64 = if i == 0 {
                1
            } else {
                0
            };
            if self.words[i] != expected {
                return false;
            }
            i = i + 1;
        }
        assert(self@ =~= one_words());
        true
    }
}

/// A multiset hash: the fraction `numerator / denominator` of two 3072-bit
/// integers. It is finalized when its denominator is one.
#[derive(Clone, Copy, Debug)]
pub struct MuHash {
    pub numerator: Uint3072,
    pub denominator: Uint3072,
}

/// The mathematical value of a [`MuHash`].
pub struct MuHashView {
    pub numerator: Seq<u64>,
    pub denominator: Seq<u64>,
}

impl View for MuHash {
    type V = MuHashView;

    open spec fn view(&self) -> MuHashView {
        MuHashView { numerator: self.numerator@, denominator: self.denominator@ }
    }
}

/// The multiset hash whose value is `value`: `value / 1`.
pub open spec fn muhash_of(value: Seq<u64>) -> MuHashView {
    MuHashView { numerator: value, denominator: one_words() }
}

impl MuHash {
    /// The finalized multiset hash of `value`.
    pub fn from_value(value: Uint3072) -> (r: MuHash)
        ensures
            r@ == muhash_of(value@),
    {
        MuHash { numerator: value, denominator: Uint3072::one() }
    }

    /// Whether the denominator is one.
    pub fn is_finalized(&self) -> (r: bool)
        ensures
            r == (self@.denominator == one_words()),
    {
        self.denominator.is_one()
    }
}

/// Reads the multiset hash of a block from the database `db`.
pub trait UtxoMultisetsStoreReader {
    fn get(&self, db: &MultisetsDb, hash: BlockHash) -> Result<MuHash, StoreError>;
}

/// Stores the multiset hash of a block into the database `db`.
pub trait UtxoMultisetsStore: UtxoMultisetsStoreReader {
    /// A multiset hash for a block that `db` does not hold must be finalized.
    fn insert(&self, db: &mut MultisetsDb, hash: BlockHash, multiset: MuHash) -> Result<(), StoreError>
        requires
            !old(db)@.contains_key(hash) ==> multiset@.denominator == one_words(),
    ;
}

/// Writes staged for a later application to a store, in order.
pub struct WriteBatch {
    writes: Vec<(BlockHash, Uint3072)>,
}

impl View for WriteBatch {
    type V = Seq<(BlockHash, Seq<u64>)>;

    closed spec fn view(&self) -> Seq<(BlockHash, Seq<u64>)> {
        self.writes@.map_values(|w: (BlockHash, Uint3072)| (w.0, w.1@))
    }
}

impl WriteBatch {
    pub fn new() -> (r: WriteBatch)
        ensures
            r@ == Seq::<(BlockHash, Seq<u64>)>::empty(),
    {
        let r = WriteBatch { writes: Vec::new() };
        assert(r@ =~= Seq::<(BlockHash, Seq<u64>)>::empty());
        r
    }

    fn put(&mut self, hash: BlockHash, value: Uint3072)
        ensures
            final(self)@ == old(self)@.push((hash, value@)),
    {
        self.writes.push((hash, value));
        assert(self@ =~= old(self)@.push((hash, value@)));
    }
}

/// The entries `m` after applying the writes `w` in order.
pub open spec fn apply_writes(m: Map<BlockHash, Seq<u64>>, w: Seq<(BlockHash, Seq<u64>)>) -> Map<
    BlockHash,
    Seq<u64>,
>
    decreases w.len(),
{
    if w.len() == 0 {
        m
    } else {
        apply_writes(m, w.drop_last()).insert(w.last().0, w.last().1)
    }
}

/// The database of multiset hashes by block. Every store made from another
/// one (by `clone_with_new_cache`) reads and writes this same database, which
/// is handed to each of their calls.
pub struct MultisetsDb {
    entries: HashMap<BlockHash, Uint3072>,
}

impl View for MultisetsDb {
    type V = Map<BlockHash, Seq<u64>>;

    closed spec fn view(&self) -> Map<BlockHash, Seq<u64>> {
        self.entries@.map_values(|u: Uint3072| u@)
    }
}

impl MultisetsDb {
    /// An empty database.
    pub fn new() -> (r: MultisetsDb)
        ensures
            r@ == Map::<BlockHash, Seq<u64>>::empty(),
    {
        let r = MultisetsDb { entries: HashMap::new() };
        assert(r@ =~= Map::<BlockHash, Seq<u64>>::empty());
        r
    }

    /// Applies the writes staged in `batch`, in order.
    pub fn write(&mut self, batch: WriteBatch)
        ensures
            final(self)@ == apply_writes(old(self)@, batch@),
    {
        let writes = batch.writes;
        let ghost w = writes@.map_values(|x: (BlockHash, Uint3072)| (x.0, x.1@));
        let mut i: usize = 0;
        proof {
            assert(w.take(0) =~= Seq::<(BlockHash, Seq<u64>)>::empty());
        }
        while i < writes.len()
            invariant
                i <= writes@.len(),
                w == writes@.map_values(|x: (BlockHash, Uint3072)| (x.0, x.1@)),
                self@ == apply_writes(old(self)@, w.take(i as int)),
            decreases writes@.len() - i,
        {
            let (hash, value) = writes[i];
            self.entries.insert(hash, value);
            proof {
                assert(w.take(i + 1).drop_last() =~= w.take(i as int));
                assert(w.take(i + 1).last() == (hash, value@));
                assert(self@ =~= apply_writes(old(self)@, w.take(i as int)).insert(hash, value@));
            }
            i = i + 1;
        }
        assert(w.take(w.len() as int) =~= w);
    }

    fn has(&self, hash: BlockHash) -> (r: bool)
        ensures
            r == self@.contains_key(hash),
    {
        self.entries.contains_key(&hash)
    }
}

/// Access to the multiset hashes of a database, with the size of the cache
/// that reads go through. The entries themselves are in the database that
/// each call is handed, so a store and its clones see the same entries.
pub struct DbUtxoMultisetsStore {
    cache_size: u64,
}

impl DbUtxoMultisetsStore {
    pub closed spec fn spec_cache_size(&self) -> u64 {
        self.cache_size
    }

    /// A store whose reads go through a cache of `cache_size` entries.
    pub fn new(cache_size: u64) -> (r: DbUtxoMultisetsStore)
        ensures
            r.spec_cache_size() == cache_size,
    {
        DbUtxoMultisetsStore { cache_size }
    }

    /// A store of the same database, read through a new cache of
    /// `cache_size` entries.
    pub fn clone_with_new_cache(&self, cache_size: u64) -> (r: DbUtxoMultisetsStore)
        ensures
            r.spec_cache_size() == cache_size,
    {
        DbUtxoMultisetsStore { cache_size }
    }

    /// The size of the cache that reads go through.
    pub fn cache_size(&self) -> (r: u64)
        ensures
            r == self.spec_cache_size(),
    {
        self.cache_size
    }

    /// Stages the write of the finalized multiset hash of `hash` in `batch`.
    /// Fails, staging nothing, when `db` already holds `hash`.
    pub fn insert_batch(
        &self,
        db: &MultisetsDb,
        batch: &mut WriteBatch,
        hash: BlockHash,
        multiset: MuHash,
    ) -> (r: Result<(), StoreError>)
        requires
            !db@.contains_key(hash) ==> multiset@.denominator == one_words(),
        ensures
            db@.contains_key(hash) ==> r == Err::<(), StoreError>(StoreError::KeyAlreadyExists(hash))
                && final(batch)@ == old(batch)@,
            !db@.contains_key(hash) ==> r is Ok && final(batch)@ == old(batch)@.push(
                (hash, multiset@.numerator),
            ),
    {
        if db.has(hash) {
            return Err(StoreError::KeyAlreadyExists(hash));
        }
        batch.put(hash, multiset.numerator);
        Ok(())
    }
}

impl UtxoMultisetsStoreReader for DbUtxoMultisetsStore {
    /// The multiset hash of `hash` in `db`; an error where `db` does not
    /// hold it.
    fn get(&self, db: &MultisetsDb, hash: BlockHash) -> (r: Result<MuHash, StoreError>)
        ensures
            db@.contains_key(hash) ==> r is Ok && r->Ok_0@ == muhash_of(db@[hash]),
            !db@.contains_key(hash) ==> r == Err::<MuHash, StoreError>(StoreError::KeyNotFound(hash)),
    {
        match db.entries.get(&hash) {
            Some(v) => Ok(MuHash::from_value(*v)),
            None => Err(StoreError::KeyNotFound(hash)),
        }
    }
}

impl UtxoMultisetsStore for DbUtxoMultisetsStore {
    /// Stores the finalized multiset hash of `hash` in `db`. Fails, changing
    /// nothing, when `db` already holds `hash`.
    fn insert(&self, db: &mut MultisetsDb, hash: BlockHash, multiset: MuHash) -> (r: Result<(), StoreError>)
        ensures
            old(db)@.contains_key(hash) ==> r == Err::<(), StoreError>(
                StoreError::KeyAlreadyExists(hash),
            ) && final(db)@ == old(db)@,
            !old(db)@.contains_key(hash) ==> r is Ok && final(db)@ == old(db)@.insert(
                hash,
                multiset@.numerator,
            ),
    {
        if db.has(hash) {
            return Err(StoreError::KeyAlreadyExists(hash));
        }
        db.entries.insert(hash, multiset.numerator);
        assert(db@ =~= old(db)@.insert(hash, multiset@.numerator));
        Ok(())
    }
}

/// What an insert stores is what a read gives back: once a finalized
/// multiset hash is inserted for a block the store did not hold, the store
/// holds the block, and reading it gives that multiset hash.
pub proof fn inserted_multiset_is_read_back(
    before: Map<BlockHash, Seq<u64>>,
    after: Map<BlockHash, Seq<u64>>,
    hash: BlockHash,
    multiset: MuHashView,
)
    requires
        multiset.denominator == one_words(),
        !before.contains_key(hash),
        after == before.insert(hash, multiset.numerator),
    ensures
        after.contains_key(hash),
        muhash_of(after[hash]) == multiset,
        forall|h: BlockHash| h != hash ==> (after.contains_key(h) == before.contains_key(h) && (
        before.contains_key(h) ==> after[h] == before[h])),
{
}

/// A write staged in an empty batch and then applied has the same effect as
/// the direct write.
pub proof fn batched_write_is_direct_write(m: Map<BlockHash, Seq<u64>>, hash: BlockHash, value: Seq<u64>)
    ensures
        apply_writes(m, Seq::empty().push((hash, value))) == m.insert(hash, value),
{
    let w = Seq::<(BlockHash, Seq<u64>)>::empty().push((hash, value));
    assert(w.drop_last() =~= Seq::<(BlockHash, Seq<u64>)>::empty());
    assert(apply_writes(m, w.drop_last()) == m);
}

} // verus!
