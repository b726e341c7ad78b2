pub mod model;
pub mod stores;
pub mod reachability;
pub mod traversal;
pub mod trusted_data;
pub mod pruning_proof;
pub mod utxo_multisets;
pub mod errors;
pub mod rpc;
