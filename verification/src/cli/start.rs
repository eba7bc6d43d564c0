//! Arguments of the live monitor.

use vstd::prelude::*;

verus! {

/// Where the configuration file lives.
pub struct Args {
    pub config: String,
}

} // verus!
