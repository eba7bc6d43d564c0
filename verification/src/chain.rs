//! Chain-specific behaviour, table-driven by chain id: the wrapped-native
//! token, the set of chains whose canonical WETH9 emits Deposit/Withdrawal
//! logs, and the Optimism family with its `l1Fee` receipt extension.

use vstd::prelude::*;
use crate::types::Address;

verus! {

pub const CHAIN_MAINNET: u64 = 1;
pub const CHAIN_OPTIMISM: u64 = 10;
pub const CHAIN_BSC: u64 = 56;
pub const CHAIN_POLYGON: u64 = 137;
pub const CHAIN_BASE: u64 = 8453;
pub const CHAIN_BLAST: u64 = 81457;

/// What `alloy_chains` answers for a chain's wrapped-native token: its most
/// popular wrapped-native contract, as twenty bytes, or `None` where the
/// chain has none. A fixed table keyed by chain id.
pub uninterp spec fn wrapped_native_of(chain_id: u64) -> Option<Seq<u8>>;

/// Whether `alloy_chains` counts the chain in the Optimism family. A fixed
/// flag table keyed by chain id.
pub uninterp spec fn optimism_chain(chain_id: u64) -> bool;

/// The canonical WETH9 contract of Ethereum mainnet, as twenty bytes.
pub open spec fn weth9_mainnet_bytes() -> Seq<u8> {
    seq![
        0xC0u8,
        0x2au8,
        0xaAu8,
        0x39u8,
        0xb2u8,
        0x23u8,
        0xFEu8,
        0x8Du8,
        0x0Au8,
        0x0eu8,
        0x5Cu8,
        0x4Fu8,
        0x27u8,
        0xeAu8,
        0xD9u8,
        0x08u8,
        0x3Cu8,
        0x75u8,
        0x6Cu8,
        0xc2u8,
    ]
}

/// Relies on `alloy_chains::NamedChain::wrapped_native_token`: the wrapped-
/// native token of the named chain out of a fixed address table, `None` for
/// an unknown or unlisted chain; the mainnet entry is the canonical WETH9
/// contract.
#[verifier::external_body]
fn lookup_wrapped_native(chain_id: u64) -> (r: Option<Vec<u8>>)
    ensures
        match r {
            Some(v) => wrapped_native_of(chain_id) == Some(v@) && v@.len() == 20 && (chain_id == 1
                ==> v@ == weth9_mainnet_bytes()),
            None => wrapped_native_of(chain_id) is None && chain_id != 1,
        },
{
    alloy_chains::Chain::from_id(chain_id)
        .named()
        .and_then(|n| n.wrapped_native_token())
        .map(|a| a.as_slice().to_vec())
}

/// Relies on `alloy_chains::Chain::is_optimism`: whether the chain carries
/// the Optimism flag in a fixed table; mainnet does not, Optimism itself
/// does.
#[verifier::external_body]
pub(crate) fn lookup_is_optimism(chain_id: u64) -> (r: bool)
    ensures
        r == optimism_chain(chain_id) && (chain_id == 1 ==> !r) && (chain_id == 10 ==> r),
{
    alloy_chains::Chain::from_id(chain_id).is_optimism()
}

/// The address held in twenty big-endian bytes.
pub open spec fn spec_addr_of_bytes(b: Seq<u8>) -> Address
    recommends
        b.len() == 20,
{
    Address {
        hi: (b[0] * 0x1000000 + b[1] * 0x10000 + b[2] * 0x100 + b[3]) as u32,
        lo: (b[4] * 0x1_0000_0000_0000_0000_0000_0000_0000_00u128 + b[5]
            * 0x1_0000_0000_0000_0000_0000_0000_0000u128 + b[6]
            * 0x1_0000_0000_0000_0000_0000_0000_00u128 + b[7]
            * 0x1_0000_0000_0000_0000_0000_0000u128 + b[8]
            * 0x1_0000_0000_0000_0000_0000_00u128 + b[9] * 0x1_0000_0000_0000_0000_0000u128 + b[10]
            * 0x1_0000_0000_0000_0000_00u128 + b[11] * 0x1_0000_0000_0000_0000u128 + b[12]
            * 0x1_0000_0000_0000_00u128 + b[13] * 0x1_0000_0000_0000u128 + b[14]
            * 0x1_0000_0000_00u128 + b[15] * 0x1_0000_0000u128 + b[16] * 0x1_0000_00u128 + b[17]
            * 0x1_0000u128 + b[18] * 0x100u128 + b[19]) as u128,
    }
}

/// Read an address out of twenty big-endian bytes.
pub fn address_from_bytes(v: &Vec<u8>) -> (r: Address)
    requires
        v@.len() == 20,
    ensures
        r == spec_addr_of_bytes(v@),
{
    let hi: u32 = (v[0] as u32) * 0x1000000 + (v[1] as u32) * 0x10000 + (v[2] as u32) * 0x100 + (
    v[3] as u32);
    let lo: u128 = (v[4] as u128) * 0x1_0000_0000_0000_0000_0000_0000_0000_00u128 + (v[5] as u128)
        * 0x1_0000_0000_0000_0000_0000_0000_0000u128 + (v[6] as u128)
        * 0x1_0000_0000_0000_0000_0000_0000_00u128 + (v[7] as u128)
        * 0x1_0000_0000_0000_0000_0000_0000u128 + (v[8] as u128)
        * 0x1_0000_0000_0000_0000_0000_00u128 + (v[9] as u128) * 0x1_0000_0000_0000_0000_0000u128
        + (v[10] as u128) * 0x1_0000_0000_0000_0000_00u128 + (v[11] as u128)
        * 0x1_0000_0000_0000_0000u128 + (v[12] as u128) * 0x1_0000_0000_0000_00u128 + (
    v[13] as u128) * 0x1_0000_0000_0000u128 + (v[14] as u128) * 0x1_0000_0000_00u128 + (
    v[15] as u128) * 0x1_0000_0000u128 + (v[16] as u128) * 0x1_0000_00u128 + (v[17] as u128)
        * 0x1_0000u128 + (v[18] as u128) * 0x100u128 + (v[19] as u128);
    Address { hi, lo }
}

/// The chain's wrapped-native token, `None` where the chain has none.
pub fn wrapped_native_token(chain_id: u64) -> (r: Option<Address>)
    ensures
        match r {
            Some(a) => wrapped_native_of(chain_id) matches Some(b) && a == spec_addr_of_bytes(b),
            None => wrapped_native_of(chain_id) is None,
        },
        chain_id == 1 ==> r == Some(spec_addr_of_bytes(weth9_mainnet_bytes())),
{
    match lookup_wrapped_native(chain_id) {
        Some(v) => Some(address_from_bytes(&v)),
        None => None,
    }
}

/// The chains whose canonical WETH9 contract is known to emit Deposit and
/// Withdrawal logs: mainnet, BSC, Polygon, Optimism, Base and Blast.
pub open spec fn spec_is_weth9(chain_id: u64) -> bool {
    ||| chain_id == 1
    ||| chain_id == 56
    ||| chain_id == 137
    ||| chain_id == 10
    ||| chain_id == 8453
    ||| chain_id == 81457
}

pub fn is_weth9(chain_id: u64) -> (r: bool)
    ensures
        r == spec_is_weth9(chain_id),
{
    chain_id == 1 || chain_id == 56 || chain_id == 137 || chain_id == 10 || chain_id == 8453
        || chain_id == 81457
}

} // verus!
