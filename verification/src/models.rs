//! The records the service reads from its store and the responses it builds.
//!
//! Wallet addresses are carried as their hexadecimal text, and amounts in the
//! token's base unit.

use vstd::prelude::*;

verus! {

/// The status that the service reports for blocks and transactions.
#[derive(Clone, Copy, Debug, PartialEq, Eq, Structural)]
pub enum BlockStatus {
    Validated,
}

/// A transaction as stored once it is part of a block.
#[derive(Debug, PartialEq, Eq)]
pub struct Transaction {
    pub id: String,
    pub block_id: String,
    pub age_ts: u64,
    pub creation_td: u128,
    pub amount: u128,
    pub to: String,
    pub from: String,
}

/// A transaction waiting in the pool to be put into a block.
#[derive(Debug, PartialEq, Eq)]
pub struct TransactionRequest {
    pub id: String,
    pub to: String,
    pub from: String,
    pub amount: u128,
}

/// A block as stored.
#[derive(Debug, PartialEq, Eq)]
pub struct BlockData {
    pub block_id: String,
    pub txn_ids: Vec<String>,
    pub amount: u128,
    pub age_ts: u64,
    pub creation_td: u128,
    pub block_hash: String,
}

/// The answer to a lookup of one transaction.
#[derive(Debug, PartialEq, Eq)]
pub struct GetTransactionResponse {
    pub transaction_id: String,
    pub block_id: String,
    pub age_ts: u64,
    pub creation_td: u128,
    pub amount: u128,
    pub to: String,
    pub from: String,
    pub status: BlockStatus,
}

/// The answer to a lookup of one block.
#[derive(Debug, PartialEq, Eq)]
pub struct GetBlockResponse {
    pub block_id: String,
    pub age_ts: u64,
    pub transactions_count: usize,
    pub creation_td: u128,
    pub status: BlockStatus,
    pub block_hash: String,
    pub gas_cost: u64,
}

/// One transaction of a listing.
#[derive(Debug, PartialEq, Eq)]
pub struct ListTransactionItem {
    pub transaction_id: String,
    pub age_ts: u64,
    pub creation_td: u128,
    pub amount: u128,
    pub to: String,
    pub from: String,
    pub status: BlockStatus,
}

/// One block of a listing.
#[derive(Debug, PartialEq, Eq)]
pub struct ListBlockItem {
    pub block_id: String,
    pub age_ts: u64,
    pub transactions_count: usize,
    pub creation_td: u128,
    pub status: BlockStatus,
    pub block_hash: String,
}

/// The error value of a failed call to another service.
#[derive(Debug, PartialEq, Eq)]
pub struct GenericError {
    pub display_msg: String,
    pub error_code: u16,
    pub log_msg: String,
}

/// A transaction response with empty texts and zero numbers.
pub open spec fn is_empty_transaction_response(r: GetTransactionResponse) -> bool {
    &&& r.transaction_id@ == Seq::<char>::empty()
    &&& r.block_id@ == Seq::<char>::empty()
    &&& r.age_ts == 0
    &&& r.creation_td == 0
    &&& r.amount == 0
    &&& r.to@ == Seq::<char>::empty()
    &&& r.from@ == Seq::<char>::empty()
    &&& r.status == BlockStatus::Validated
}

/// A block response with empty texts and zero numbers.
pub open spec fn is_empty_block_response(r: GetBlockResponse) -> bool {
    &&& r.block_id@ == Seq::<char>::empty()
    &&& r.age_ts == 0
    &&& r.transactions_count == 0
    &&& r.creation_td == 0
    &&& r.status == BlockStatus::Validated
    &&& r.block_hash@ == Seq::<char>::empty()
    &&& r.gas_cost == 0
}

impl Default for GetTransactionResponse {
    /// Empty texts, zero numbers.
    fn default() -> (r: GetTransactionResponse)
        ensures
            is_empty_transaction_response(r),
    {
        GetTransactionResponse {
            transaction_id: String::new(),
            block_id: String::new(),
            age_ts: 0,
            creation_td: 0,
            amount: 0,
            to: String::new(),
            from: String::new(),
            status: BlockStatus::Validated,
        }
    }
}

impl Default for GetBlockResponse {
    /// Empty texts, zero numbers.
    fn default() -> (r: GetBlockResponse)
        ensures
            is_empty_block_response(r),
    {
        GetBlockResponse {
            block_id: String::new(),
            age_ts: 0,
            transactions_count: 0,
            creation_td: 0,
            status: BlockStatus::Validated,
            block_hash: String::new(),
            gas_cost: 0,
        }
    }
}

} // verus!
