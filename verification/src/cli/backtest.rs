//! Arguments of the backtest run.

use vstd::prelude::*;

verus! {

/// Where the test data lives, and whether to regenerate it.
pub struct Args {
    pub test_data: String,
    pub rpc_url: String,
    pub generate: bool,
}

} // verus!
