//! Plain data the engine works on: addresses, hashes, call frames, receipts,
//! headers, and the error kinds the engine surfaces.

use vstd::prelude::*;
use crate::int256::U256;

verus! {

/// A 20-byte account or token identifier; `hi` holds the leading four bytes
/// and `lo` the trailing sixteen, both big-endian.
#[derive(Clone, Copy, PartialEq, Eq, Structural, Hash, Debug)]
pub struct Address {
    pub hi: u32,
    pub lo: u128,
}

impl Address {
    /// The zero address: the native token, and the mint/burn endpoint of
    /// transfer logs. It never appears as an account key of a sheet.
    pub open spec fn spec_zero() -> Address {
        Address { hi: 0, lo: 0 }
    }

    pub fn zero() -> (r: Address)
        ensures
            r == Address::spec_zero(),
    {
        Address { hi: 0, lo: 0 }
    }

    pub fn is_zero(&self) -> (r: bool)
        ensures
            r == (*self == Address::spec_zero()),
    {
        self.hi == 0 && self.lo == 0
    }
}

/// A 32-byte word: a transaction hash or a log topic; `hi` holds the leading
/// sixteen bytes and `lo` the trailing sixteen, both big-endian.
#[derive(Clone, Copy, PartialEq, Eq, Structural, Hash, Debug)]
pub struct B256 {
    pub hi: u128,
    pub lo: u128,
}

/// The account identified by the low twenty bytes of a 32-byte topic word.
pub open spec fn spec_addr_of_word(w: B256) -> Address {
    Address { hi: (w.hi % 0x1_0000_0000) as u32, lo: w.lo }
}

pub fn addr_of_word(w: &B256) -> (r: Address)
    ensures
        r == spec_addr_of_word(*w),
{
    Address { hi: (w.hi % 0x1_0000_0000u128) as u32, lo: w.lo }
}

/// The kind of a call frame, as the call tracer tags it.
#[derive(Clone, Copy, PartialEq, Eq, Structural, Debug)]
pub enum CallKind {
    Call,
    CallCode,
    StaticCall,
    DelegateCall,
    Create,
    Create2,
    SelfDestruct,
    /// Any other tag; such frames never move native value.
    Other,
}

impl CallKind {
    /// Whether a frame of this kind moves its `value` field natively.
    /// Delegate and static calls never move value.
    pub open spec fn spec_moves_value(self) -> bool {
        self is Call || self is CallCode || self is Create || self is Create2
            || self is SelfDestruct
    }

    pub fn moves_value(&self) -> (r: bool)
        ensures
            r == self.spec_moves_value(),
    {
        match self {
            CallKind::Call => true,
            CallKind::CallCode => true,
            CallKind::Create => true,
            CallKind::Create2 => true,
            CallKind::SelfDestruct => true,
            _ => false,
        }
    }
}

/// One log emitted by a call frame. Fields the tracer may omit stay optional;
/// a missing address is a malformed trace, missing topics or data read as
/// empty.
pub struct LogEntry {
    pub address: Option<Address>,
    pub topics: Option<Vec<B256>>,
    pub data: Option<Vec<u8>>,
}

impl LogEntry {
    pub open spec fn spec_topics(&self) -> Seq<B256> {
        match self.topics {
            Some(t) => t@,
            None => Seq::empty(),
        }
    }

    pub open spec fn spec_data(&self) -> Seq<u8> {
        match self.data {
            Some(d) => d@,
            None => Seq::empty(),
        }
    }
}

/// One node of the call-tracer output: a single call with its logs and its
/// child calls, in order.
pub struct CallFrame {
    pub typ: CallKind,
    pub from: Address,
    pub to: Option<Address>,
    pub value: Option<U256>,
    pub error: Option<String>,
    pub revert_reason: Option<String>,
    pub logs: Vec<LogEntry>,
    pub calls: Vec<CallFrame>,
}

impl CallFrame {
    /// A reverted sub-call leaves no state change: it and its children are
    /// skipped entirely.
    pub open spec fn spec_reverted(&self) -> bool {
        self.error is Some || self.revert_reason is Some
    }

    pub fn reverted(&self) -> (r: bool)
        ensures
            r == self.spec_reverted(),
    {
        self.error.is_some() || self.revert_reason.is_some()
    }
}

/// A transaction receipt, reduced to the fields the engine reads. The
/// `l1_fee` bytes carry the hex string of the Optimism-family extension
/// field, when the receipt had one.
pub struct Receipt {
    pub transaction_index: u64,
    pub transaction_hash: B256,
    pub from: Address,
    pub to: Option<Address>,
    pub status: bool,
    pub gas_used: u64,
    pub effective_gas_price: u128,
    pub l1_fee: Option<Vec<u8>>,
}

/// What the block tracer returns for one transaction: a call frame, or a
/// per-transaction error.
pub enum TraceResult {
    Success(CallFrame),
    Error { error: String, tx_hash: Option<B256> },
}

/// A block header, reduced to the fields the engine reads.
pub struct Header {
    pub number: u64,
    pub base_fee_per_gas: Option<u64>,
    pub miner: Address,
}

/// The error kinds the system distinguishes.
#[derive(Clone, Copy, PartialEq, Eq, Structural, Debug)]
pub enum EngineError {
    /// The configuration failed to parse or validate; fatal at startup.
    ConfigInvalid,
    /// Network or protocol failure fetching receipts or traces; fatal for the
    /// current block.
    RpcFailure,
    /// A trace is not a call frame, a log misses required fields, or receipts
    /// and traces disagree in length; fatal for the block.
    MalformedTrace,
    /// The chain has no known wrapped-native token; PnL cannot be computed.
    UnsupportedChain,
    /// Unexpected 256-bit overflow; fatal for the block.
    ArithmeticOverflow,
    /// A token symbol or decimals lookup failed; non-fatal, display falls
    /// back to the short token address.
    TokenMetadataLookup,
}

} // verus!
