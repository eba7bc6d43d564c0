//! Arguments of the one-shot runs: one transaction's sheet, or one wallet's
//! report over one block.

use vstd::prelude::*;
use crate::types::{Address, B256};

verus! {

/// Print the balance-change sheet of one transaction.
pub struct TxArgs {
    pub hash: B256,
    pub rpc_url: String,
}

/// Print one wallet's report and message for one block.
pub struct BlockArgs {
    pub block: u64,
    pub address: Address,
    pub builder: Option<Address>,
    pub rpc_url: String,
    pub other_addresses: Vec<Address>,
    pub include_recipient: bool,
}

} // verus!
