//! Log-decoding primitives and byte readers: the ERC-20 `Transfer` and WETH9
//! `Deposit`/`Withdrawal` grammars over raw topics and data.

use vstd::prelude::*;
use crate::int256::{I256, U256, i256_val, u256_val, pow128, pow256};
use vstd::string::StringExecFns;
use crate::types::{Address, B256, LogEntry, spec_addr_of_word, addr_of_word};

verus! {

/// The log events the extractor understands.
#[derive(Clone, Copy, PartialEq, Eq, Structural, Debug)]
pub enum EventKind {
    Erc20Transfer,
    Weth9Deposit,
    Weth9Withdrawal,
}

/// keccak("Transfer(address,address,uint256)").
pub open spec fn spec_transfer_sig() -> B256 {
    B256 {
        hi: 0xddf252ad_1be2c89b_69c2b068_fc378daau128,
        lo: 0x952ba7f1_63c4a116_28f55a4d_f523b3efu128,
    }
}

/// keccak("Deposit(address,uint256)").
pub open spec fn spec_deposit_sig() -> B256 {
    B256 {
        hi: 0xe1fffcc4_923d04b5_59f4d29a_8bfc6cdau128,
        lo: 0x04eb5b0d_3c460751_c2402c5c_5cc9109cu128,
    }
}

/// keccak("Withdrawal(address,uint256)").
pub open spec fn spec_withdrawal_sig() -> B256 {
    B256 {
        hi: 0x7fcf532c_15f0a6db_0bd6d0e0_38bea71du128,
        lo: 0x30d808c7_d98cb3bf_7268a95b_f5081b65u128,
    }
}

pub open spec fn spec_event_sig(kind: EventKind) -> B256 {
    match kind {
        EventKind::Erc20Transfer => spec_transfer_sig(),
        EventKind::Weth9Deposit => spec_deposit_sig(),
        EventKind::Weth9Withdrawal => spec_withdrawal_sig(),
    }
}

pub fn event_sig(kind: EventKind) -> (r: B256)
    ensures
        r == spec_event_sig(kind),
{
    match kind {
        EventKind::Erc20Transfer => B256 {
            hi: 0xddf252ad_1be2c89b_69c2b068_fc378daau128,
            lo: 0x952ba7f1_63c4a116_28f55a4d_f523b3efu128,
        },
        EventKind::Weth9Deposit => B256 {
            hi: 0xe1fffcc4_923d04b5_59f4d29a_8bfc6cdau128,
            lo: 0x04eb5b0d_3c460751_c2402c5c_5cc9109cu128,
        },
        EventKind::Weth9Withdrawal => B256 {
            hi: 0x7fcf532c_15f0a6db_0bd6d0e0_38bea71du128,
            lo: 0x30d808c7_d98cb3bf_7268a95b_f5081b65u128,
        },
    }
}

/// Sixteen big-endian bytes as an unsigned value.
pub open spec fn be_u128(b: Seq<u8>) -> nat
    recommends
        b.len() == 16,
{
    (b[0] * 0x1_0000_0000_0000_0000_0000_0000_0000_00u128 + b[1]
        * 0x1_0000_0000_0000_0000_0000_0000_0000u128 + b[2]
        * 0x1_0000_0000_0000_0000_0000_0000_00u128 + b[3] * 0x1_0000_0000_0000_0000_0000_0000u128
        + b[4] * 0x1_0000_0000_0000_0000_0000_00u128 + b[5] * 0x1_0000_0000_0000_0000_0000u128
        + b[6] * 0x1_0000_0000_0000_0000_00u128 + b[7] * 0x1_0000_0000_0000_0000u128 + b[8]
        * 0x1_0000_0000_0000_00u128 + b[9] * 0x1_0000_0000_0000u128 + b[10] * 0x1_0000_0000_00u128
        + b[11] * 0x1_0000_0000u128 + b[12] * 0x1_0000_00u128 + b[13] * 0x1_0000u128 + b[14]
        * 0x100u128 + b[15]) as nat
}

/// Thirty-two big-endian bytes as an unsigned value: the ABI word carrying a
/// `uint256`.
pub open spec fn spec_word_val(b: Seq<u8>) -> nat
    recommends
        b.len() == 32,
{
    be_u128(b.subrange(0, 16)) * pow128() + be_u128(b.subrange(16, 32))
}

fn u128_from_be(v: &Vec<u8>, off: usize) -> (r: u128)
    requires
        off + 16 <= v@.len(),
    ensures
        r == be_u128(v@.subrange(off as int, off + 16 as int)),
{
    let n: usize = v.len();
    let ghost b = v@.subrange(off as int, off + 16 as int);
    let r: u128 = (v[off] as u128) * 0x1_0000_0000_0000_0000_0000_0000_0000_00u128 + (v[off
        + 1] as u128) * 0x1_0000_0000_0000_0000_0000_0000_0000u128 + (v[off + 2] as u128)
        * 0x1_0000_0000_0000_0000_0000_0000_00u128 + (v[off + 3] as u128)
        * 0x1_0000_0000_0000_0000_0000_0000u128 + (v[off + 4] as u128)
        * 0x1_0000_0000_0000_0000_0000_00u128 + (v[off + 5] as u128)
        * 0x1_0000_0000_0000_0000_0000u128 + (v[off + 6] as u128)
        * 0x1_0000_0000_0000_0000_00u128 + (v[off + 7] as u128) * 0x1_0000_0000_0000_0000u128 + (
    v[off + 8] as u128) * 0x1_0000_0000_0000_00u128 + (v[off + 9] as u128)
        * 0x1_0000_0000_0000u128 + (v[off + 10] as u128) * 0x1_0000_0000_00u128 + (v[off
        + 11] as u128) * 0x1_0000_0000u128 + (v[off + 12] as u128) * 0x1_0000_00u128 + (v[off
        + 13] as u128) * 0x1_0000u128 + (v[off + 14] as u128) * 0x100u128 + (v[off + 15] as u128);
    proof {
        assert forall|i: int| 0 <= i < 16 implies b[i] == v@[off + i] by {}
    }
    r
}

/// Read the `uint256` out of a 32-byte ABI word.
pub fn u256_from_be_bytes(v: &Vec<u8>) -> (r: U256)
    requires
        v@.len() == 32,
    ensures
        u256_val(r) == spec_word_val(v@),
{
    let hi: u128 = u128_from_be(v, 0);
    let lo: u128 = u128_from_be(v, 16);
    let l0: u64 = (lo % 0x1_0000_0000_0000_0000u128) as u64;
    let l1: u64 = (lo / 0x1_0000_0000_0000_0000u128) as u64;
    let l2: u64 = (hi % 0x1_0000_0000_0000_0000u128) as u64;
    let l3: u64 = (hi / 0x1_0000_0000_0000_0000u128) as u64;
    U256 { l0, l1, l2, l3 }
}

/// A log event the extractor decoded.
pub enum DecodedEvent {
    /// ERC-20 `Transfer(from, to, value)`.
    Erc20Transfer { from: Address, to: Address, value: U256 },
    /// WETH9 `Deposit(dst, wad)`: native currency wrapped.
    Weth9Deposit { dst: Address, wad: U256 },
    /// WETH9 `Withdrawal(src, wad)`: wrapped currency unwrapped.
    Weth9Withdrawal { src: Address, wad: U256 },
}

/// The number of topics the event declares: the signature plus one word per
/// indexed parameter.
pub open spec fn spec_topic_count(kind: EventKind) -> int {
    match kind {
        EventKind::Erc20Transfer => 3,
        EventKind::Weth9Deposit => 2,
        EventKind::Weth9Withdrawal => 2,
    }
}

/// Whether the log's topics decode as the event: exact topic count, the
/// signature first, and exactly one 32-byte data word.
pub open spec fn spec_log_matches(topics: Seq<B256>, data: Seq<u8>, kind: EventKind) -> bool {
    &&& topics.len() == spec_topic_count(kind)
    &&& topics[0] == spec_event_sig(kind)
    &&& data.len() == 32
}

/// Whether the log's first topic is the event's signature.
pub fn validate_log_topic(log: &LogEntry, kind: EventKind) -> (r: bool)
    ensures
        r == (log.spec_topics().len() > 0 && log.spec_topics()[0] == spec_event_sig(kind)),
{
    let sig = event_sig(kind);
    match &log.topics {
        Some(t) => {
            if t.len() > 0 {
                t[0] == sig
            } else {
                false
            }
        },
        None => false,
    }
}

/// Decode one log as the given event: `None` when the topic count, the
/// signature or the data length does not match.
pub fn primitive_log_decode(log: &LogEntry, kind: EventKind) -> (r: Option<DecodedEvent>)
    ensures
        match r {
            Some(ev) => spec_log_matches(log.spec_topics(), log.spec_data(), kind) && (match ev {
                DecodedEvent::Erc20Transfer { from, to, value } => kind
                    == EventKind::Erc20Transfer && from == spec_addr_of_word(
                    log.spec_topics()[1],
                ) && to == spec_addr_of_word(log.spec_topics()[2]) && u256_val(value)
                    == spec_word_val(log.spec_data()),
                DecodedEvent::Weth9Deposit { dst, wad } => kind == EventKind::Weth9Deposit && dst
                    == spec_addr_of_word(log.spec_topics()[1]) && u256_val(wad) == spec_word_val(
                    log.spec_data(),
                ),
                DecodedEvent::Weth9Withdrawal { src, wad } => kind == EventKind::Weth9Withdrawal
                    && src == spec_addr_of_word(log.spec_topics()[1]) && u256_val(wad)
                    == spec_word_val(log.spec_data()),
            }),
            None => !spec_log_matches(log.spec_topics(), log.spec_data(), kind),
        },
{
    if !validate_log_topic(log, kind) {
        return None;
    }
    let topics = match &log.topics {
        Some(t) => t,
        None => {
            return None;
        },
    };
    let data = match &log.data {
        Some(d) => d,
        None => {
            return None;
        },
    };
    if data.len() != 32 {
        return None;
    }
    match kind {
        EventKind::Erc20Transfer => {
            if topics.len() != 3 {
                return None;
            }
            let value = u256_from_be_bytes(data);
            Some(
                DecodedEvent::Erc20Transfer {
                    from: addr_of_word(&topics[1]),
                    to: addr_of_word(&topics[2]),
                    value,
                },
            )
        },
        EventKind::Weth9Deposit => {
            if topics.len() != 2 {
                return None;
            }
            let wad = u256_from_be_bytes(data);
            Some(DecodedEvent::Weth9Deposit { dst: addr_of_word(&topics[1]), wad })
        },
        EventKind::Weth9Withdrawal => {
            if topics.len() != 2 {
                return None;
            }
            let wad = u256_from_be_bytes(data);
            Some(DecodedEvent::Weth9Withdrawal { src: addr_of_word(&topics[1]), wad })
        },
    }
}

/// True iff the flag is unset; used when serialising optional booleans.
pub fn is_false(v: &bool) -> (r: bool)
    ensures
        r == !*v,
{
    !*v
}

} // verus!

verus! {

// ---------------------------------------------------------------------------
// Hex strings
// ---------------------------------------------------------------------------

/// ASCII hex digit: 0-9, a-f or A-F.
pub open spec fn is_hex_digit(b: u8) -> bool {
    (0x30 <= b <= 0x39) || (0x61 <= b <= 0x66) || (0x41 <= b <= 0x46)
}

pub open spec fn hex_digit_val(b: u8) -> int {
    if 0x30 <= b <= 0x39 {
        b - 0x30
    } else if 0x61 <= b <= 0x66 {
        b - 0x61 + 10
    } else {
        b - 0x41 + 10
    }
}

pub open spec fn all_hex(s: Seq<u8>) -> bool {
    forall|i: int| 0 <= i < s.len() ==> is_hex_digit(#[trigger] s[i])
}

/// The value of a string of hex digits, most significant first.
pub open spec fn hex_nat(s: Seq<u8>) -> int
    decreases s.len(),
{
    if s.len() == 0 {
        0
    } else {
        hex_nat(s.drop_last()) * 16 + hex_digit_val(s.last())
    }
}

/// The string with one optional `0x` prefix removed.
pub open spec fn strip_hex_prefix(s: Seq<u8>) -> Seq<u8> {
    if s.len() >= 2 && s[0] == 0x30 && s[1] == 0x78 {
        s.subrange(2, s.len() as int)
    } else {
        s
    }
}

/// What a hex string parses to: `None` when empty after the prefix, when
/// some byte is no hex digit, or when the value needs more than 256 bits.
pub open spec fn spec_parse_hex(s: Seq<u8>) -> Option<nat> {
    let d = strip_hex_prefix(s);
    if d.len() > 0 && all_hex(d) && hex_nat(d) < pow256() {
        Some(hex_nat(d) as nat)
    } else {
        None
    }
}

proof fn lemma_hex_nat_nonneg(d: Seq<u8>)
    requires
        all_hex(d),
    ensures
        hex_nat(d) >= 0,
    decreases d.len(),
{
    if d.len() > 0 {
        assert(all_hex(d.drop_last())) by {
            assert(forall|i: int| 0 <= i < d.len() - 1 ==> d.drop_last()[i] == d[i]);
        };
        lemma_hex_nat_nonneg(d.drop_last());
        assert(is_hex_digit(d.last()));
    }
}

proof fn lemma_hex_nat_prefix(d: Seq<u8>, i: int)
    requires
        all_hex(d),
        0 <= i <= d.len(),
    ensures
        hex_nat(d) >= hex_nat(d.subrange(0, i)),
    decreases d.len(),
{
    if i == d.len() {
        assert(d.subrange(0, i) =~= d);
    } else {
        let d1 = d.drop_last();
        assert(all_hex(d1)) by {
            assert(forall|j: int| 0 <= j < d1.len() ==> d1[j] == d[j]);
        };
        lemma_hex_nat_nonneg(d1);
        assert(is_hex_digit(d.last()));
        assert(hex_nat(d) >= hex_nat(d1));
        assert(d.subrange(0, i) =~= d1.subrange(0, i));
        lemma_hex_nat_prefix(d1, i);
    }
}

/// Parse a hex string, with one optional `0x` prefix, into a `U256`:
/// `None` exactly when the string is empty after the prefix, holds a
/// non-hex byte, or encodes a value of more than 256 bits.
pub fn parse_hex_u256(v: &Vec<u8>) -> (r: Option<U256>)
    ensures
        match r {
            Some(u) => spec_parse_hex(v@) == Some(u256_val(u)),
            None => spec_parse_hex(v@) is None,
        },
{
    let n = v.len();
    let start: usize = if n >= 2 && v[0] == 0x30u8 && v[1] == 0x78u8 {
        2
    } else {
        0
    };
    let ghost d = strip_hex_prefix(v@);
    proof {
        assert(d =~= v@.subrange(start as int, n as int));
    }
    if start == n {
        return None;
    }
    let mut acc = U256::zero();
    let mut i: usize = start;
    proof {
        assert(d.subrange(0, 0) =~= Seq::<u8>::empty());
    }
    while i < n
        invariant
            start <= i <= n,
            n == v@.len(),
            d == strip_hex_prefix(v@),
            d =~= v@.subrange(start as int, n as int),
            all_hex(d.subrange(0, i - start as int)),
            u256_val(acc) == hex_nat(d.subrange(0, i - start as int)),
        decreases n - i,
    {
        let b = v[i];
        proof {
            assert(d[i - start as int] == v@[i as int]);
        }
        let digit: u64 = if 0x30u8 <= b && b <= 0x39u8 {
            (b - 0x30u8) as u64
        } else if 0x61u8 <= b && b <= 0x66u8 {
            (b - 0x61u8) as u64 + 10
        } else if 0x41u8 <= b && b <= 0x46u8 {
            (b - 0x41u8) as u64 + 10
        } else {
            proof {
                assert(!is_hex_digit(d[i - start as int]));
                assert(!all_hex(d));
            }
            return None;
        };
        proof {
            assert(is_hex_digit(d[i - start as int]));
            assert(digit == hex_digit_val(d[i - start as int]));
        }
        let (next, carry) = crate::int256::u256_mul_add_u64(&acc, 16, digit);
        proof {
            assert(d.subrange(0, i + 1 - start as int) =~= d.subrange(0, i - start as int).push(
                d[i - start as int],
            ));
            assert(d.subrange(0, i + 1 - start as int).drop_last() =~= d.subrange(
                0,
                i - start as int,
            ));
            assert(hex_nat(d.subrange(0, i + 1 - start as int)) == hex_nat(
                d.subrange(0, i - start as int),
            ) * 16 + hex_digit_val(d[i - start as int]));
        }
        if carry != 0 {
            proof {
                assert(u256_val(next) + carry * pow256() == u256_val(acc) * 16 + digit);
                assert(hex_nat(d.subrange(0, i + 1 - start as int)) >= pow256());
                if all_hex(d) {
                    lemma_hex_nat_prefix(d, i + 1 - start as int);
                    assert(hex_nat(d) >= pow256());
                }
            }
            return None;
        }
        acc = next;
        i = i + 1;
    }
    proof {
        assert(d.subrange(0, n - start as int) =~= d);
        crate::int256::lemma_u256_val_bound(acc);
    }
    Some(acc)
}

/// The number of decimal digits of an integer, at least one.
pub fn digit_count(n: u64) -> (r: usize)
    ensures
        r == spec_digit_count(n as nat),
{
    let mut count: usize = 1;
    let mut rest: u64 = n / 10;
    proof {
        reveal_with_fuel(pow10, 21);
        assert(pow10(19) == 10000000000000000000int);
        lemma_digit_count_rec_bound((n / 10) as nat, 19);
        lemma_digit_count_rec_nonneg((n / 10) as nat);
    }
    while rest > 0
        invariant
            spec_digit_count(n as nat) == count + spec_digit_count_rec(rest as nat),
            count + spec_digit_count_rec(rest as nat) <= 20,
            spec_digit_count_rec(rest as nat) >= 0,
        decreases rest,
    {
        count = count + 1;
        rest = rest / 10;
        proof {
            lemma_digit_count_rec_nonneg(rest as nat);
        }
    }
    count
}

spec fn pow10(k: nat) -> int
    decreases k,
{
    if k == 0 {
        1
    } else {
        10 * pow10((k - 1) as nat)
    }
}

proof fn lemma_digit_count_rec_nonneg(m: nat)
    ensures
        spec_digit_count_rec(m) >= 0,
    decreases m,
{
    if m > 0 {
        lemma_digit_count_rec_nonneg(m / 10);
    }
}

proof fn lemma_digit_count_rec_bound(m: nat, k: nat)
    requires
        m < pow10(k),
    ensures
        spec_digit_count_rec(m) <= k,
    decreases k,
{
    if m > 0 {
        assert(k > 0) by {
            if k == 0 {
                assert(pow10(0) == 1);
            }
        };
        assert(10 * (m / 10) <= m) by {
            vstd::arithmetic::div_mod::lemma_fundamental_div_mod(m as int, 10);
        };
        assert(m / 10 < pow10((k - 1) as nat));
        lemma_digit_count_rec_bound(m / 10, (k - 1) as nat);
    }
}

/// Decimal digit count: 1 for values below ten, one more per factor of ten.
pub open spec fn spec_digit_count(n: nat) -> int {
    1 + spec_digit_count_rec(n / 10)
}

/// The digits beyond the first.
pub open spec fn spec_digit_count_rec(n: nat) -> int
    decreases n,
{
    if n == 0 {
        0
    } else {
        1 + spec_digit_count_rec(n / 10)
    }
}

} // verus!

verus! {

// ---------------------------------------------------------------------------
// Decimal and hex rendering
// ---------------------------------------------------------------------------

/// The character of one decimal digit.
pub open spec fn spec_digit_char(d: int) -> char
    recommends
        0 <= d < 10,
{
    if d == 0 {
        '0'
    } else if d == 1 {
        '1'
    } else if d == 2 {
        '2'
    } else if d == 3 {
        '3'
    } else if d == 4 {
        '4'
    } else if d == 5 {
        '5'
    } else if d == 6 {
        '6'
    } else if d == 7 {
        '7'
    } else if d == 8 {
        '8'
    } else {
        '9'
    }
}

/// The character of one hex digit, lower case.
pub open spec fn spec_hex_char(d: int) -> char
    recommends
        0 <= d < 16,
{
    if d < 10 {
        spec_digit_char(d)
    } else if d == 10 {
        'a'
    } else if d == 11 {
        'b'
    } else if d == 12 {
        'c'
    } else if d == 13 {
        'd'
    } else if d == 14 {
        'e'
    } else {
        'f'
    }
}

/// The decimal rendering of a number, no leading zeros, `0` for zero.
pub open spec fn spec_decimal(n: nat) -> Seq<char>
    decreases n,
{
    if n < 10 {
        seq![spec_digit_char(n as int)]
    } else {
        spec_decimal(n / 10) + seq![spec_digit_char((n % 10) as int)]
    }
}

/// The hex rendering of a number, zero-padded to a fixed width.
pub open spec fn spec_hex_padded(n: nat, w: nat) -> Seq<char>
    decreases w,
{
    if w == 0 {
        Seq::empty()
    } else {
        spec_hex_padded(n / 16, (w - 1) as nat) + seq![spec_hex_char((n % 16) as int)]
    }
}

/// The characters of collected digits, least significant first in the input,
/// most significant first in the output.
pub open spec fn digits_chars(ds: Seq<u64>, f: spec_fn(int) -> char) -> Seq<char>
    decreases ds.len(),
{
    if ds.len() == 0 {
        Seq::empty()
    } else {
        seq![f(ds.last() as int)] + digits_chars(ds.drop_last(), f)
    }
}

proof fn lemma_digits_chars_cons(t: Seq<u64>, x: u64, f: spec_fn(int) -> char)
    ensures
        digits_chars(seq![x] + t, f) == digits_chars(t, f) + seq![f(x as int)],
    decreases t.len(),
{
    if t.len() == 0 {
        assert(seq![x] + t =~= seq![x]);
        assert(seq![x].drop_last() =~= Seq::<u64>::empty());
        assert(digits_chars(Seq::<u64>::empty(), f) =~= Seq::<char>::empty());
        assert(digits_chars(seq![x], f) =~= seq![f(x as int)]);
        assert(digits_chars(t, f) + seq![f(x as int)] =~= seq![f(x as int)]);
    } else {
        assert((seq![x] + t).last() == t.last());
        assert((seq![x] + t).drop_last() =~= seq![x] + t.drop_last());
        lemma_digits_chars_cons(t.drop_last(), x, f);
        assert((digits_chars(t.drop_last(), f) + seq![f(x as int)]).len() >= 0);
        assert(seq![f(t.last() as int)] + (digits_chars(t.drop_last(), f) + seq![f(x as int)])
            =~= (seq![f(t.last() as int)] + digits_chars(t.drop_last(), f)) + seq![f(x as int)]);
    }
}

fn push_digit(out: &mut String, d: u64)
    requires
        d < 10,
    ensures
        final(out)@ == old(out)@ + seq![spec_digit_char(d as int)],
{
    proof {
        reveal_strlit("0");
        reveal_strlit("1");
        reveal_strlit("2");
        reveal_strlit("3");
        reveal_strlit("4");
        reveal_strlit("5");
        reveal_strlit("6");
        reveal_strlit("7");
        reveal_strlit("8");
        reveal_strlit("9");
    }
    if d == 0 {
        out.append("0");
    } else if d == 1 {
        out.append("1");
    } else if d == 2 {
        out.append("2");
    } else if d == 3 {
        out.append("3");
    } else if d == 4 {
        out.append("4");
    } else if d == 5 {
        out.append("5");
    } else if d == 6 {
        out.append("6");
    } else if d == 7 {
        out.append("7");
    } else if d == 8 {
        out.append("8");
    } else {
        out.append("9");
    }
    proof {
        assert(final(out)@ =~= old(out)@ + seq![spec_digit_char(d as int)]);
    }
}

fn push_hex(out: &mut String, d: u64)
    requires
        d < 16,
    ensures
        final(out)@ == old(out)@ + seq![spec_hex_char(d as int)],
{
    if d < 10 {
        push_digit(out, d);
    } else {
        proof {
            reveal_strlit("a");
            reveal_strlit("b");
            reveal_strlit("c");
            reveal_strlit("d");
            reveal_strlit("e");
            reveal_strlit("f");
        }
        if d == 10 {
            out.append("a");
        } else if d == 11 {
            out.append("b");
        } else if d == 12 {
            out.append("c");
        } else if d == 13 {
            out.append("d");
        } else if d == 14 {
            out.append("e");
        } else {
            out.append("f");
        }
        proof {
            assert(final(out)@ =~= old(out)@ + seq![spec_hex_char(d as int)]);
        }
    }
}

/// Append collected digits, most significant last in the vector.
fn append_digits(out: &mut String, digits: &Vec<u64>, hex: bool)
    requires
        forall|j: int| 0 <= j < digits@.len() ==> (#[trigger] digits@[j]) < (if hex { 16u64 } else { 10u64 }),
    ensures
        final(out)@ == old(out)@ + digits_chars(
            digits@,
            if hex {
                |d: int| spec_hex_char(d)
            } else {
                |d: int| spec_digit_char(d)
            },
        ),
{
    let ghost f = if hex {
        |d: int| spec_hex_char(d)
    } else {
        |d: int| spec_digit_char(d)
    };
    let mut i = digits.len();
    proof {
        assert(digits@.subrange(i as int, digits@.len() as int) =~= Seq::<u64>::empty());
        assert(old(out)@ + Seq::<char>::empty() =~= old(out)@);
    }
    while i > 0
        invariant
            i <= digits@.len(),
            forall|j: int|
                0 <= j < digits@.len() ==> (#[trigger] digits@[j]) < (if hex {
                    16u64
                } else {
                    10u64
                }),
            f == (if hex {
                |d: int| spec_hex_char(d)
            } else {
                |d: int| spec_digit_char(d)
            }),
            out@ == old(out)@ + digits_chars(
                digits@.subrange(i as int, digits@.len() as int),
                f,
            ),
        decreases i,
    {
        i = i - 1;
        let d = digits[i];
        let ghost pre = out@;
        if hex {
            push_hex(out, d);
        } else {
            push_digit(out, d);
        }
        proof {
            let tail = digits@.subrange(i + 1 as int, digits@.len() as int);
            assert(digits@.subrange(i as int, digits@.len() as int) =~= seq![digits@[i as int]]
                + tail);
            lemma_digits_chars_cons(tail, digits@[i as int], f);
            assert(out@ =~= pre + seq![f(d as int)]) by {
                if hex {
                    assert(f(d as int) == spec_hex_char(d as int));
                } else {
                    assert(f(d as int) == spec_digit_char(d as int));
                }
            };
            assert((old(out)@ + digits_chars(tail, f)) + seq![f(d as int)] =~= old(out)@ + (
            digits_chars(tail, f) + seq![f(d as int)]));
        }
    }
    proof {
        assert(digits@.subrange(0, digits@.len() as int) =~= digits@);
    }
}

/// The decimal rendering of an unsigned 256-bit value.
pub fn u256_to_decimal(v: &U256) -> (r: String)
    ensures
        r@ == spec_decimal(u256_val(*v)),
{
    let ghost f = |d: int| spec_digit_char(d);
    let mut digits: Vec<u64> = Vec::new();
    let mut cur = *v;
    let mut done = false;
    proof {
        assert(digits_chars(digits@, f) =~= Seq::<char>::empty());
        assert(spec_decimal(u256_val(cur)) + digits_chars(digits@, f) =~= spec_decimal(
            u256_val(*v),
        ));
    }
    while !done
        invariant
            f == |d: int| spec_digit_char(d),
            forall|j: int| 0 <= j < digits@.len() ==> (#[trigger] digits@[j]) < 10,
            (if done {
                digits_chars(digits@, f)
            } else {
                spec_decimal(u256_val(cur)) + digits_chars(digits@, f)
            }) == spec_decimal(u256_val(*v)),
        decreases (if done {
            0nat
        } else {
            u256_val(cur) + 1
        }),
    {
        let (q, r) = crate::int256::u256_div_rem_u64(&cur, 10);
        let ghost pre = digits@;
        digits.push(r as u64);
        proof {
            assert(u256_val(cur) == u256_val(q) * 10 + r);
            assert(u256_val(q) == u256_val(cur) / 10);
            assert(r == u256_val(cur) % 10);
            assert(digits@ =~= pre.push(r as u64));
            assert(digits@.drop_last() =~= pre);
            assert(digits_chars(digits@, f) == seq![spec_digit_char(r as int)] + digits_chars(
                pre,
                f,
            ));
            if u256_val(cur) < 10 {
                assert(u256_val(q) == 0);
                assert(spec_decimal(u256_val(cur)) =~= seq![spec_digit_char(r as int)]);
                assert(seq![spec_digit_char(r as int)] + digits_chars(pre, f) == digits_chars(
                    digits@,
                    f,
                ));
            } else {
                assert(u256_val(q) > 0);
                assert(spec_decimal(u256_val(cur)) == spec_decimal(u256_val(q)) + seq![
                    spec_digit_char(r as int),
                ]);
                assert((spec_decimal(u256_val(q)) + seq![spec_digit_char(r as int)])
                    + digits_chars(pre, f) =~= spec_decimal(u256_val(q)) + (seq![
                    spec_digit_char(r as int),
                ] + digits_chars(pre, f)));
            }
        }
        if q.is_zero() {
            done = true;
        }
        cur = q;
    }
    let mut out = String::new();
    append_digits(&mut out, &digits, false);
    proof {
        assert(Seq::<char>::empty() + digits_chars(digits@, f) =~= digits_chars(digits@, f));
    }
    out
}

/// The decimal rendering of a signed 256-bit value, with a leading minus
/// for negatives.
pub fn i256_to_decimal(v: &I256) -> (r: String)
    ensures
        r@ == (if i256_val(*v) < 0 {
            seq!['-'] + spec_decimal((-i256_val(*v)) as nat)
        } else {
            spec_decimal(i256_val(*v) as nat)
        }),
{
    let (negative, abs) = crate::int256::i256_sign_and_abs(v);
    let digits = u256_to_decimal(&abs);
    if negative {
        let mut out = String::from_str("-");
        proof {
            reveal_strlit("-");
            assert(out@ =~= seq!['-']);
        }
        out.append(digits.as_str());
        out
    } else {
        digits
    }
}

/// The hex rendering of a value, zero-padded to a fixed digit count.
fn u128_to_hex(x: u128, width: usize) -> (r: String)
    ensures
        r@ == spec_hex_padded(x as nat, width as nat),
{
    let ghost f = |d: int| spec_hex_char(d);
    let mut digits: Vec<u64> = Vec::new();
    let mut cur: u128 = x;
    let mut j: usize = 0;
    proof {
        assert(digits_chars(digits@, f) =~= Seq::<char>::empty());
        assert(spec_hex_padded(x as nat, width as nat) + Seq::<char>::empty() =~= spec_hex_padded(
            x as nat,
            width as nat,
        ));
    }
    while j < width
        invariant
            j <= width,
            f == |d: int| spec_hex_char(d),
            forall|k: int| 0 <= k < digits@.len() ==> (#[trigger] digits@[k]) < 16,
            digits@.len() == j,
            spec_hex_padded(cur as nat, (width - j) as nat) + digits_chars(digits@, f)
                == spec_hex_padded(x as nat, width as nat),
        decreases width - j,
    {
        let nib: u64 = (cur % 16) as u64;
        let ghost pre = digits@;
        digits.push(nib);
        cur = cur / 16;
        proof {
            assert(digits@ =~= pre.push(nib));
            assert(digits@.drop_last() =~= pre);
            assert(digits_chars(digits@, f) == seq![spec_hex_char(nib as int)] + digits_chars(
                pre,
                f,
            ));
            assert((spec_hex_padded(cur as nat, (width - j - 1) as nat) + seq![
                spec_hex_char(nib as int),
            ]) + digits_chars(pre, f) =~= spec_hex_padded(cur as nat, (width - j - 1) as nat) + (
            seq![spec_hex_char(nib as int)] + digits_chars(pre, f)));
        }
        j = j + 1;
    }
    let mut out = String::new();
    append_digits(&mut out, &digits, true);
    proof {
        assert(Seq::<char>::empty() + digits_chars(digits@, f) =~= digits_chars(digits@, f));
    }
    out
}

/// A 32-byte hash as `0x` and 64 lower-case hex digits.
pub fn b256_to_hex(h: &B256) -> (r: String)
    ensures
        r@ == seq!['0', 'x'] + spec_hex_padded(h.hi as nat, 32) + spec_hex_padded(
            h.lo as nat,
            32,
        ),
{
    let mut out = String::from_str("0x");
    proof {
        reveal_strlit("0x");
        assert(out@ =~= seq!['0', 'x']);
    }
    let hi = u128_to_hex(h.hi, 32);
    let lo = u128_to_hex(h.lo, 32);
    out.append(hi.as_str());
    out.append(lo.as_str());
    proof {
        assert((seq!['0', 'x'] + spec_hex_padded(h.hi as nat, 32)) + spec_hex_padded(
            h.lo as nat,
            32,
        ) =~= seq!['0', 'x'] + spec_hex_padded(h.hi as nat, 32) + spec_hex_padded(
            h.lo as nat,
            32,
        ));
    }
    out
}

} // verus!

verus! {

/// A hash shortened to its first two and last two bytes.
pub fn format_short_hash(hash: &B256) -> (r: String)
    ensures
        r@ == seq!['0', 'x'] + spec_hex_padded(
            (hash.hi / 0x1_0000_0000_0000_0000_0000_0000_0000u128) as nat,
            4,
        ) + ".."@ + spec_hex_padded((hash.lo % 0x1_0000u128) as nat, 4),
{
    let mut out = String::from_str("0x");
    proof {
        reveal_strlit("0x");
        assert(out@ =~= seq!['0', 'x']);
    }
    let head = u128_to_hex(hash.hi / 0x1_0000_0000_0000_0000_0000_0000_0000u128, 4);
    let tail = u128_to_hex(hash.lo % 0x1_0000u128, 4);
    out.append(head.as_str());
    out.append("..");
    out.append(tail.as_str());
    proof {
        assert(out@ =~= seq!['0', 'x'] + spec_hex_padded(
            (hash.hi / 0x1_0000_0000_0000_0000_0000_0000_0000u128) as nat,
            4,
        ) + ".."@ + spec_hex_padded((hash.lo % 0x1_0000u128) as nat, 4));
    }
    out
}

/// An address shortened to its first six and last four bytes.
pub fn format_short_address(address: &Address) -> (r: String)
    ensures
        r@ == seq!['0', 'x'] + spec_hex_padded(
            (address.hi * 0x1_0000u128 + address.lo
                / 0x1_0000_0000_0000_0000_0000_0000_0000u128) as nat,
            12,
        ) + "..."@ + spec_hex_padded((address.lo % 0x1_0000_0000u128) as nat, 8),
{
    let mut out = String::from_str("0x");
    proof {
        reveal_strlit("0x");
        assert(out@ =~= seq!['0', 'x']);
    }
    let head = u128_to_hex(
        (address.hi as u128) * 0x1_0000u128 + address.lo
            / 0x1_0000_0000_0000_0000_0000_0000_0000u128,
        12,
    );
    let tail = u128_to_hex(address.lo % 0x1_0000_0000u128, 8);
    out.append(head.as_str());
    out.append("...");
    out.append(tail.as_str());
    proof {
        assert(out@ =~= seq!['0', 'x'] + spec_hex_padded(
            (address.hi * 0x1_0000u128 + address.lo
                / 0x1_0000_0000_0000_0000_0000_0000_0000u128) as nat,
            12,
        ) + "..."@ + spec_hex_padded((address.lo % 0x1_0000_0000u128) as nat, 8));
    }
    out
}

/// The chain tag the Phalcon explorer uses in its transaction links.
pub open spec fn spec_phalcon_tag(chain_id: u64) -> Seq<char> {
    if chain_id == 1 {
        "eth"@
    } else if chain_id == 10 {
        "optimism"@
    } else if chain_id == 42161 {
        "arbitrum"@
    } else if chain_id == 56 {
        "bsc"@
    } else if chain_id == 100 {
        "xdai"@
    } else if chain_id == 137 {
        "polygon"@
    } else if chain_id == 250 {
        "fantom"@
    } else if chain_id == 1285 {
        "moonriver"@
    } else if chain_id == 8453 {
        "base"@
    } else if chain_id == 42220 {
        "celo"@
    } else if chain_id == 43114 {
        "avax"@
    } else if chain_id == 5 {
        "eth-goerli"@
    } else if chain_id == 11155111 {
        "eth-sepolia"@
    } else if chain_id == 534352 {
        "scroll"@
    } else {
        "unsupported-chain"@
    }
}

pub fn to_phalcon_chain_tag(chain_id: u64) -> (r: &'static str)
    ensures
        r@ == spec_phalcon_tag(chain_id),
{
    if chain_id == 1 {
        "eth"
    } else if chain_id == 10 {
        "optimism"
    } else if chain_id == 42161 {
        "arbitrum"
    } else if chain_id == 56 {
        "bsc"
    } else if chain_id == 100 {
        "xdai"
    } else if chain_id == 137 {
        "polygon"
    } else if chain_id == 250 {
        "fantom"
    } else if chain_id == 1285 {
        "moonriver"
    } else if chain_id == 8453 {
        "base"
    } else if chain_id == 42220 {
        "celo"
    } else if chain_id == 43114 {
        "avax"
    } else if chain_id == 5 {
        "eth-goerli"
    } else if chain_id == 11155111 {
        "eth-sepolia"
    } else if chain_id == 534352 {
        "scroll"
    } else {
        "unsupported-chain"
    }
}

} // verus!
