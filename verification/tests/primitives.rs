use wallet_watcher::int256::{
    I256, U256, i256_checked_add, i256_checked_sub, i256_sign_and_abs, u256_add_carry,
    u256_checked_add, u256_checked_mul_u64, u256_div_rem_u64, u256_mul_add_u64, u256_sub_borrow,
};
use wallet_watcher::utils::{
    DecodedEvent, EventKind, digit_count, event_sig, is_false, parse_hex_u256,
    primitive_log_decode, u256_from_be_bytes, validate_log_topic,
};
use wallet_watcher::types::{Address, B256, LogEntry};

fn u(v: u64) -> U256 {
    U256::from_u64(v)
}

fn neg(v: u64) -> I256 {
    i256_checked_sub(&I256::zero(), &I256::from_raw(u(v))).unwrap()
}

#[test]
fn u256_add_and_sub_round_trip() {
    let a = U256 { l0: u64::MAX, l1: u64::MAX, l2: 7, l3: 0 };
    let b = U256 { l0: 1, l1: 0, l2: 0, l3: 0 };
    let (s, carry) = u256_add_carry(&a, &b);
    assert!(!carry);
    assert_eq!(s, U256 { l0: 0, l1: 0, l2: 8, l3: 0 });
    let (d, borrow) = u256_sub_borrow(&s, &b);
    assert!(!borrow);
    assert_eq!(d, a);
}

#[test]
fn u256_add_overflow_detected() {
    let max = U256 { l0: u64::MAX, l1: u64::MAX, l2: u64::MAX, l3: u64::MAX };
    assert!(u256_checked_add(&max, &u(1)).is_none());
    assert_eq!(u256_checked_add(&max, &U256::zero()), Some(max));
}

#[test]
fn u256_mul_small() {
    let (p, carry) = u256_mul_add_u64(&u(1_000_000_007), 1_000_000_009, 5);
    assert_eq!(carry, 0);
    // 1000000007 * 1000000009 + 5 = 1000000016000000068
    assert_eq!(p, u(1_000_000_016_000_000_068));
    assert!(u256_checked_mul_u64(&U256 { l0: 0, l1: 0, l2: 0, l3: u64::MAX }, 2).is_none());
}

#[test]
fn u256_div_rem_small() {
    let (q, r) = u256_div_rem_u64(&u(1_000_000_000_000_000_000), 7);
    assert_eq!(q, u(142857142857142857));
    assert_eq!(r, 1);
}

#[test]
fn i256_two_complement_reinterpretation() {
    // the top bit set reads as a negative number
    let top = U256 { l0: 0, l1: 0, l2: 0, l3: 0x8000_0000_0000_0000 };
    let v = I256::from_raw(top);
    assert!(v.is_negative());
    assert!(!v.is_positive());
    let (sign, abs) = i256_sign_and_abs(&v);
    assert!(sign);
    assert_eq!(abs, top); // -2^255 has itself as raw absolute value
}

#[test]
fn i256_checked_add_overflow() {
    // (2^255 - 1) + 1 overflows
    let max_pos = I256::from_raw(
        U256 { l0: u64::MAX, l1: u64::MAX, l2: u64::MAX, l3: 0x7fff_ffff_ffff_ffff },
    );
    assert!(i256_checked_add(&max_pos, &I256::from_raw(u(1))).is_none());
    // -1 + 1 == 0
    let minus_one = neg(1);
    let sum = i256_checked_add(&minus_one, &I256::from_raw(u(1))).unwrap();
    assert!(sum.is_zero());
}

#[test]
fn i256_checked_sub_signs() {
    let five = I256::from_raw(u(5));
    let eight = I256::from_raw(u(8));
    let d = i256_checked_sub(&five, &eight).unwrap();
    assert_eq!(d, neg(3));
    // -2^255 - 1 overflows
    let min_neg = I256::from_raw(U256 { l0: 0, l1: 0, l2: 0, l3: 0x8000_0000_0000_0000 });
    assert!(i256_checked_sub(&min_neg, &I256::from_raw(u(1))).is_none());
}

#[test]
fn parse_hex_values() {
    let p = |s: &str| parse_hex_u256(&s.as_bytes().to_vec());
    assert_eq!(p("0x1a2B"), Some(u(0x1a2b)));
    assert_eq!(p("ff"), Some(u(255)));
    assert_eq!(p("0x"), None);
    assert_eq!(p(""), None);
    assert_eq!(p("0xzz"), None);
    assert_eq!(p("10 "), None);
    // exactly 64 hex digits is the largest width that fits
    let max64 = "f".repeat(64);
    assert_eq!(
        p(&max64),
        Some(U256 { l0: u64::MAX, l1: u64::MAX, l2: u64::MAX, l3: u64::MAX })
    );
    let over = format!("1{}", "0".repeat(64));
    assert_eq!(p(&over), None);
}

#[test]
fn digit_count_values() {
    assert_eq!(digit_count(0), 1);
    assert_eq!(digit_count(9), 1);
    assert_eq!(digit_count(10), 2);
    assert_eq!(digit_count(1_000_000), 7);
    assert_eq!(digit_count(u64::MAX), 20);
}

#[test]
fn is_false_flips() {
    assert!(is_false(&false));
    assert!(!is_false(&true));
}

fn addr(n: u128) -> Address {
    Address { hi: 0, lo: n }
}

fn word_of_addr(a: Address) -> B256 {
    B256 { hi: a.hi as u128, lo: a.lo }
}

fn word_of_u64(v: u64) -> Vec<u8> {
    let mut d = vec![0u8; 32];
    d[24..].copy_from_slice(&v.to_be_bytes());
    d
}

#[test]
fn u256_from_word_bytes() {
    let d = word_of_u64(123_456_789);
    assert_eq!(u256_from_be_bytes(&d), u(123_456_789));
    let mut big = vec![0u8; 32];
    big[0] = 1;
    assert_eq!(
        u256_from_be_bytes(&big),
        U256 { l0: 0, l1: 0, l2: 0, l3: 0x0100_0000_0000_0000 }
    );
}

#[test]
fn decode_erc20_transfer() {
    let log = LogEntry {
        address: Some(addr(0x70)),
        topics: Some(vec![
            event_sig(EventKind::Erc20Transfer),
            word_of_addr(addr(0xA)),
            word_of_addr(addr(0xB)),
        ]),
        data: Some(word_of_u64(100)),
    };
    assert!(validate_log_topic(&log, EventKind::Erc20Transfer));
    match primitive_log_decode(&log, EventKind::Erc20Transfer) {
        Some(DecodedEvent::Erc20Transfer { from, to, value }) => {
            assert_eq!(from, addr(0xA));
            assert_eq!(to, addr(0xB));
            assert_eq!(value, u(100));
        },
        _ => panic!("expected a Transfer"),
    }
    // topic count mismatch is a non-match, not an error
    let short = LogEntry {
        address: Some(addr(5)),
        topics: Some(vec![event_sig(EventKind::Erc20Transfer), word_of_addr(addr(0xA))]),
        data: Some(word_of_u64(100)),
    };
    assert!(primitive_log_decode(&short, EventKind::Erc20Transfer).is_none());
    // wrong signature is a non-match
    let wrong = LogEntry {
        address: Some(addr(5)),
        topics: Some(vec![
            event_sig(EventKind::Weth9Deposit),
            word_of_addr(addr(0xA)),
            word_of_addr(addr(0xB)),
        ]),
        data: Some(word_of_u64(100)),
    };
    assert!(primitive_log_decode(&wrong, EventKind::Erc20Transfer).is_none());
}

#[test]
fn decode_weth9_events() {
    let dep = LogEntry {
        address: Some(addr(0x77)),
        topics: Some(vec![event_sig(EventKind::Weth9Deposit), word_of_addr(addr(0xA))]),
        data: Some(word_of_u64(777)),
    };
    match primitive_log_decode(&dep, EventKind::Weth9Deposit) {
        Some(DecodedEvent::Weth9Deposit { dst, wad }) => {
            assert_eq!(dst, addr(0xA));
            assert_eq!(wad, u(777));
        },
        _ => panic!("expected a Deposit"),
    }
    let wit = LogEntry {
        address: Some(addr(0x77)),
        topics: Some(vec![event_sig(EventKind::Weth9Withdrawal), word_of_addr(addr(0xB))]),
        data: Some(word_of_u64(778)),
    };
    match primitive_log_decode(&wit, EventKind::Weth9Withdrawal) {
        Some(DecodedEvent::Weth9Withdrawal { src, wad }) => {
            assert_eq!(src, addr(0xB));
            assert_eq!(wad, u(778));
        },
        _ => panic!("expected a Withdrawal"),
    }
}

use wallet_watcher::utils::{b256_to_hex, i256_to_decimal, to_phalcon_chain_tag, u256_to_decimal,
    format_short_hash, format_short_address};

#[test]
fn decimal_rendering() {
    assert_eq!(u256_to_decimal(&U256::zero()), "0");
    assert_eq!(u256_to_decimal(&u(1_000_000_000_000_000_000)), "1000000000000000000");
    assert_eq!(
        u256_to_decimal(&U256 { l0: u64::MAX, l1: u64::MAX, l2: u64::MAX, l3: u64::MAX }),
        "115792089237316195423570985008687907853269984665640564039457584007913129639935"
    );
    assert_eq!(i256_to_decimal(&neg(42)), "-42");
    assert_eq!(i256_to_decimal(&I256::from_raw(u(42))), "42");
}

#[test]
fn hex_rendering() {
    let h = B256 { hi: 0xddf252ad_1be2c89b_69c2b068_fc378daa, lo: 0x952ba7f1_63c4a116_28f55a4d_f523b3ef };
    assert_eq!(
        b256_to_hex(&h),
        "0xddf252ad1be2c89b69c2b068fc378daa952ba7f163c4a11628f55a4df523b3ef"
    );
    assert_eq!(format_short_hash(&h), "0xddf2..b3ef");
    let a = Address { hi: 0xC02aaA39, lo: 0xb223FE8D_0A0e5C4F_27eAD908_3C756Cc2 };
    assert_eq!(format_short_address(&a), "0xc02aaa39b223...3c756cc2");
}

#[test]
fn phalcon_chain_tags() {
    assert_eq!(to_phalcon_chain_tag(1), "eth");
    assert_eq!(to_phalcon_chain_tag(100), "xdai");
    assert_eq!(to_phalcon_chain_tag(534352), "scroll");
    assert_eq!(to_phalcon_chain_tag(7777), "unsupported-chain");
}

#[test]
fn i256_add_is_commutative_on_samples() {
    let a = neg(7);
    let b = I256::from_raw(u(20));
    assert_eq!(i256_checked_add(&a, &b), i256_checked_add(&b, &a));
}
