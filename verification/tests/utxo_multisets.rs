use consensus::stores::StoreError;
use consensus::utxo_multisets::{
    DbUtxoMultisetsStore, MuHash, MultisetsDb, Uint3072, UtxoMultisetsStore, UtxoMultisetsStoreReader, WriteBatch,
};

fn value(seed: u64) -> Uint3072 {
    let mut words = [0u64; 48];
    words[0] = seed;
    words[47] = seed * 3;
    Uint3072 { words }
}

#[test]
fn one_is_one() {
    let one = Uint3072::one();
    assert!(one.is_one());
    assert_eq!(one.words[0], 1);
    assert!(one.words[1..].iter().all(|w| *w == 0));
    assert!(!value(1).is_one());
    assert!(!Uint3072 { words: [0u64; 48] }.is_one());
}

#[test]
fn a_multiset_from_a_value_is_finalized() {
    let m = MuHash::from_value(value(5));
    assert!(m.is_finalized());
    assert_eq!(m.numerator.words, value(5).words);
    let not_final = MuHash { numerator: value(5), denominator: value(2) };
    assert!(!not_final.is_finalized());
}

#[test]
fn an_inserted_multiset_is_read_back() {
    let mut db = MultisetsDb::new();
    let s = DbUtxoMultisetsStore::new(100);
    assert_eq!(s.insert(&mut db, 7, MuHash::from_value(value(9))), Ok(()));
    let m = s.get(&db, 7).unwrap();
    assert_eq!(m.numerator.words, value(9).words);
    assert!(m.is_finalized());
}

#[test]
fn a_second_insert_of_a_block_fails_and_keeps_the_first() {
    let mut db = MultisetsDb::new();
    let s = DbUtxoMultisetsStore::new(100);
    s.insert(&mut db, 7, MuHash::from_value(value(9))).unwrap();
    assert_eq!(s.insert(&mut db, 7, MuHash::from_value(value(4))), Err(StoreError::KeyAlreadyExists(7)));
    let not_final = MuHash { numerator: value(4), denominator: value(2) };
    assert_eq!(s.insert(&mut db, 7, not_final), Err(StoreError::KeyAlreadyExists(7)));
    assert_eq!(s.get(&db, 7).unwrap().numerator.words, value(9).words);
}

#[test]
fn reading_an_unknown_block_fails() {
    let db = MultisetsDb::new();
    let s = DbUtxoMultisetsStore::new(100);
    assert_eq!(s.get(&db, 3).map(|m| m.numerator.words[0]), Err(StoreError::KeyNotFound(3)));
}

#[test]
fn batched_inserts_show_once_the_batch_is_written() {
    let mut db = MultisetsDb::new();
    let s = DbUtxoMultisetsStore::new(10);
    s.insert(&mut db, 1, MuHash::from_value(value(1))).unwrap();
    let mut batch = WriteBatch::new();
    assert_eq!(s.insert_batch(&db, &mut batch, 2, MuHash::from_value(value(2))), Ok(()));
    assert_eq!(s.insert_batch(&db, &mut batch, 3, MuHash::from_value(value(3))), Ok(()));
    assert_eq!(
        s.insert_batch(&db, &mut batch, 1, MuHash::from_value(value(8))),
        Err(StoreError::KeyAlreadyExists(1))
    );
    assert!(s.get(&db, 2).is_err());
    db.write(batch);
    assert_eq!(s.get(&db, 1).unwrap().numerator.words, value(1).words);
    assert_eq!(s.get(&db, 2).unwrap().numerator.words, value(2).words);
    assert_eq!(s.get(&db, 3).unwrap().numerator.words, value(3).words);
}

#[test]
fn a_clone_with_a_new_cache_shares_the_database() {
    let mut db = MultisetsDb::new();
    let s = DbUtxoMultisetsStore::new(10);
    s.insert(&mut db, 1, MuHash::from_value(value(1))).unwrap();
    let c = s.clone_with_new_cache(50);
    assert_eq!(c.cache_size(), 50);
    assert_eq!(s.cache_size(), 10);
    assert_eq!(c.get(&db, 1).unwrap().numerator.words, value(1).words);
    s.insert(&mut db, 2, MuHash::from_value(value(2))).unwrap();
    assert_eq!(c.get(&db, 2).unwrap().numerator.words, value(2).words);
    assert_eq!(c.insert(&mut db, 2, MuHash::from_value(value(5))), Err(StoreError::KeyAlreadyExists(2)));
}
