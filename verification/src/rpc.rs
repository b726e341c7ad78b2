//! Entries of the RPC answers about addresses.
use vstd::prelude::*;

use crate::model::BlockHash;

verus! {

/// An address, in its string form (prefix, colon, payload).
pub struct RpcAddress {
    pub value: String,
}

/// A transaction output: the transaction and the output's index in it.
#[derive(Clone, Copy, Debug, PartialEq, Eq, Structural)]
pub struct RpcTransactionOutpoint {
    pub transaction_id: BlockHash,
    pub index: u32,
}

/// An unspent transaction output.
pub struct RpcUtxoEntry {
    pub amount: u64,
    pub script_public_key: Vec<u8>,
    pub block_daa_score: u64,
    pub is_coinbase: bool,
}

/// An unspent output of an address.
pub struct RpcUtxosByAddressesEntry {
    pub address: RpcAddress,
    pub outpoint: RpcTransactionOutpoint,
    pub utxo_entry: RpcUtxoEntry,
}

/// The balance of an address, where it is known.
pub struct RpcBalancesByAddressesEntry {
    pub address: RpcAddress,
    /// Balance of `address` if available.
    pub balance: Option<u64>,
}

} // verus!
