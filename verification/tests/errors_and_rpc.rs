use consensus::errors::{SyncManagerError, SyncManagerResult};
use consensus::rpc::{
    RpcAddress, RpcBalancesByAddressesEntry, RpcTransactionOutpoint, RpcUtxoEntry, RpcUtxosByAddressesEntry,
};

fn check(low: u64, high: u64, chain: &[u64]) -> SyncManagerResult<()> {
    if !chain.contains(&low) {
        return Err(SyncManagerError::BlockNotInSelectedParentChain(low));
    }
    if low > high {
        return Err(SyncManagerError::LowHashHigherThanHighHash(low, high));
    }
    Ok(())
}

#[test]
fn sync_manager_errors_carry_their_hashes() {
    assert_eq!(check(4, 9, &[1, 2]), Err(SyncManagerError::BlockNotInSelectedParentChain(4)));
    assert_eq!(check(9, 4, &[9]), Err(SyncManagerError::LowHashHigherThanHighHash(9, 4)));
    assert_eq!(check(2, 4, &[2]), Ok(()));
    let e = SyncManagerError::LowHashHigherThanHighHash(1, 2);
    assert_eq!(e.clone(), e);
}

#[test]
fn rpc_entries_hold_their_fields() {
    let entry = RpcUtxosByAddressesEntry {
        address: RpcAddress { value: String::from("prefix:qz0000") },
        outpoint: RpcTransactionOutpoint { transaction_id: 77, index: 3 },
        utxo_entry: RpcUtxoEntry { amount: 500, script_public_key: vec![0x20, 0xac], block_daa_score: 12, is_coinbase: false },
    };
    assert_eq!(entry.address.value, "prefix:qz0000");
    assert_eq!(entry.outpoint, RpcTransactionOutpoint { transaction_id: 77, index: 3 });
    assert_eq!(entry.utxo_entry.amount, 500);
    let balance = RpcBalancesByAddressesEntry { address: RpcAddress { value: String::from("prefix:qz0000") }, balance: None };
    assert_eq!(balance.balance, None);
}
