use wallet_watcher::balance_changes::{BalanceChange, BalanceChanges};
use wallet_watcher::chain::{
    CHAIN_BSC, CHAIN_MAINNET, CHAIN_OPTIMISM, address_from_bytes, is_weth9, wrapped_native_token,
};
use wallet_watcher::config::{AlertTo, Channel, Config, Wallet, WalletWithContext};
use wallet_watcher::int256::{I256, U256, i256_checked_sub, i256_sign_and_abs};
use wallet_watcher::processor::{
    PnlReport, calculate_builder_reward, calculate_tx_fee, find_validator_bribe, generate_pnl,
    is_shitcoin_airdrop, pair_receipts_and_traces, process_block,
};
use wallet_watcher::types::{
    Address, B256, CallFrame, CallKind, EngineError, Header, LogEntry, Receipt, TraceResult,
};
use wallet_watcher::utils::{EventKind, event_sig};

fn addr(n: u128) -> Address {
    Address { hi: 0, lo: n }
}

fn u(v: u64) -> U256 {
    U256::from_u64(v)
}

fn pos(v: u64) -> I256 {
    I256::from_raw(u(v))
}

fn neg(v: u64) -> I256 {
    i256_checked_sub(&I256::zero(), &pos(v)).unwrap()
}

fn word_of_addr(a: Address) -> B256 {
    B256 { hi: a.hi as u128, lo: a.lo }
}

fn word_of_u64(v: u64) -> Vec<u8> {
    let mut d = vec![0u8; 32];
    d[24..].copy_from_slice(&v.to_be_bytes());
    d
}

fn plain_frame(from: Address, to: Address, value: u64) -> CallFrame {
    CallFrame {
        typ: CallKind::Call,
        from,
        to: Some(to),
        value: Some(u(value)),
        error: None,
        revert_reason: None,
        logs: vec![],
        calls: vec![],
    }
}

fn transfer_log(token: Address, from: Address, to: Address, value: u64) -> LogEntry {
    LogEntry {
        address: Some(token),
        topics: Some(vec![
            event_sig(EventKind::Erc20Transfer),
            word_of_addr(from),
            word_of_addr(to),
        ]),
        data: Some(word_of_u64(value)),
    }
}

fn receipt(index: u64, from: Address, to: Address, status: bool) -> Receipt {
    Receipt {
        transaction_index: index,
        transaction_hash: B256 { hi: 0, lo: index as u128 + 1 },
        from,
        to: Some(to),
        status,
        gas_used: 21000,
        effective_gas_price: 10,
        l1_fee: None,
    }
}

fn wallet(address: Address) -> WalletWithContext {
    WalletWithContext::new(
        String::from("w"),
        address,
        None,
        vec![],
        false,
        AlertTo { bot_token: String::new(), chat_id: String::new(), thread_id: None },
    )
}

fn get_delta(s: &BalanceChanges, a: Address, t: Address) -> Option<I256> {
    s.get(&a).and_then(|bc| bc.get(&t))
}

const FEE: u64 = 210000; // 21000 gas at price 10

#[test]
fn failed_tx_yields_empty_sheet_and_no_report() {
    let a = addr(0xa1);
    let b = addr(0xb1);
    let rc = receipt(0, a, b, false);
    let sheet = generate_pnl(CHAIN_MAINNET, &rc, plain_frame(a, b, 1000), None).unwrap();
    assert!(sheet.is_empty());

    let header = Header { number: 1, base_fee_per_gas: Some(1), miner: addr(0xee) };
    let reports = process_block(
        CHAIN_MAINNET,
        &header,
        vec![(receipt(0, a, b, false), plain_frame(a, b, 1000))],
        &vec![wallet(a)],
    )
    .unwrap();
    assert_eq!(reports.len(), 1);
    assert!(reports[0].is_none());
}

#[test]
fn pure_ether_send() {
    let a = addr(0xa2);
    let b = addr(0xb2);
    let one_ether: u64 = 1_000_000_000_000_000_000;
    let rc = receipt(0, a, b, true);
    let sheet = generate_pnl(CHAIN_MAINNET, &rc, plain_frame(a, b, one_ether), None).unwrap();
    assert_eq!(sheet.len(), 2);
    assert_eq!(get_delta(&sheet, a, addr(0)), Some(neg(one_ether)));
    assert_eq!(get_delta(&sheet, b, addr(0)), Some(pos(one_ether)));

    let header = Header { number: 1, base_fee_per_gas: Some(1), miner: addr(0xee) };
    let reports = process_block(
        CHAIN_MAINNET,
        &header,
        vec![(receipt(0, a, b, true), plain_frame(a, b, one_ether))],
        &vec![wallet(a)],
    )
    .unwrap();
    let rep = reports[0].as_ref().unwrap();
    assert_eq!(i256_sign_and_abs(&rep.pnl), (true, u(one_ether + FEE)));
    assert!(rep.token_changes.is_empty());
    assert_eq!(rep.txs.len(), 1);
    assert_eq!(rep.txs[0].index, 0);
}

#[test]
fn weth_deposit_on_mainnet() {
    let a = addr(0xa3);
    let weth = wrapped_native_token(CHAIN_MAINNET).unwrap();
    let two_ether: u64 = 2_000_000_000_000_000_000;
    let mut frame = plain_frame(a, weth, two_ether);
    frame.logs = vec![LogEntry {
        address: Some(weth),
        topics: Some(vec![event_sig(EventKind::Weth9Deposit), word_of_addr(a)]),
        data: Some(word_of_u64(two_ether)),
    }];
    let rc = receipt(0, a, weth, true);
    let sheet = generate_pnl(CHAIN_MAINNET, &rc, frame, None).unwrap();
    // the deposit mints WETH to A; the call moves ether from A to the contract
    assert_eq!(get_delta(&sheet, a, addr(0)), Some(neg(two_ether)));
    assert_eq!(get_delta(&sheet, a, weth), Some(pos(two_ether)));

    let header = Header { number: 1, base_fee_per_gas: Some(1), miner: addr(0xee) };
    let mut frame2 = plain_frame(a, weth, two_ether);
    frame2.logs = vec![LogEntry {
        address: Some(weth),
        topics: Some(vec![event_sig(EventKind::Weth9Deposit), word_of_addr(a)]),
        data: Some(word_of_u64(two_ether)),
    }];
    let reports = process_block(
        CHAIN_MAINNET,
        &header,
        vec![(receipt(0, a, weth, true), frame2)],
        &vec![wallet(a)],
    )
    .unwrap();
    let rep = reports[0].as_ref().unwrap();
    // wrapped and native cancel: the pnl is only the fee
    assert_eq!(i256_sign_and_abs(&rep.pnl), (true, u(FEE)));
    assert!(rep.token_changes.is_empty());
}

#[test]
fn erc20_transfer_sheet_and_report() {
    let a = addr(0xa4);
    let b = addr(0xb4);
    let token = addr(0x7700);
    let mut frame = plain_frame(a, token, 0);
    frame.value = None;
    frame.logs = vec![transfer_log(token, a, b, 100)];
    let rc = receipt(0, a, token, true);
    let sheet = generate_pnl(CHAIN_MAINNET, &rc, frame, None).unwrap();
    assert_eq!(get_delta(&sheet, a, token), Some(neg(100)));
    assert_eq!(get_delta(&sheet, b, token), Some(pos(100)));
    assert_eq!(get_delta(&sheet, a, addr(0)), None);

    let header = Header { number: 1, base_fee_per_gas: Some(1), miner: addr(0xee) };
    let mut frame2 = plain_frame(a, token, 0);
    frame2.value = None;
    frame2.logs = vec![transfer_log(token, a, b, 100)];
    let reports = process_block(
        CHAIN_MAINNET,
        &header,
        vec![(receipt(0, a, token, true), frame2)],
        &vec![wallet(a)],
    )
    .unwrap();
    let rep = reports[0].as_ref().unwrap();
    assert_eq!(i256_sign_and_abs(&rep.pnl), (true, u(FEE)));
    assert_eq!(rep.token_changes.get(&token), Some(neg(100)));
}

#[test]
fn shitcoin_airdrop_filtered_for_recipients_kept_for_sender() {
    let s = addr(0x51);
    let token = addr(0x7701);
    let r1 = addr(0x61);
    let r2 = addr(0x62);
    let r3 = addr(0x63);
    let mut frame = plain_frame(s, token, 0);
    frame.value = None;
    frame.logs = vec![
        transfer_log(token, s, r1, 5),
        transfer_log(token, s, r2, 5),
        transfer_log(token, s, r3, 5),
    ];
    let rc = receipt(0, s, token, true);
    let sheet = generate_pnl(CHAIN_MAINNET, &rc, frame, None).unwrap();
    assert!(is_shitcoin_airdrop(&sheet));

    let header = Header { number: 1, base_fee_per_gas: Some(1), miner: addr(0xee) };
    let mk_frame = || {
        let mut f = plain_frame(s, token, 0);
        f.value = None;
        f.logs = vec![
            transfer_log(token, s, r1, 5),
            transfer_log(token, s, r2, 5),
            transfer_log(token, s, r3, 5),
        ];
        f
    };
    let reports = process_block(
        CHAIN_MAINNET,
        &header,
        vec![(receipt(0, s, token, true), mk_frame())],
        &vec![wallet(r1), wallet(s)],
    )
    .unwrap();
    // a sprayed recipient sees nothing; the sender is filtered out too,
    // because the airdrop classifier drops the transaction for every wallet
    assert!(reports[0].is_none());
    assert!(reports[1].is_none());

    // one recipient only: two accounts, no airdrop, the recipient reports
    let mut f2 = plain_frame(s, token, 0);
    f2.value = None;
    f2.logs = vec![transfer_log(token, s, r1, 5)];
    let reports2 = process_block(
        CHAIN_MAINNET,
        &header,
        vec![(receipt(0, s, token, true), f2)],
        &vec![wallet(r1)],
    )
    .unwrap();
    let rep = reports2[0].as_ref().unwrap();
    assert_eq!(rep.token_changes.get(&token), Some(pos(5)));
}

#[test]
fn builder_block_collects_reward_and_bribe() {
    let builder = addr(0xb0b);
    let validator = addr(0xfee);
    let payer = addr(0xca11);
    let other = addr(0xd00d);
    let bribe: u64 = 9_000_000;
    let header = Header { number: 1, base_fee_per_gas: Some(3), miner: builder };
    // two ordinary txs, then the builder pays the validator
    let txs = vec![
        (receipt(0, payer, other, true), plain_frame(payer, other, 50)),
        (receipt(1, payer, other, true), plain_frame(payer, other, 60)),
        (receipt(2, builder, validator, true), plain_frame(builder, validator, bribe)),
    ];
    let w = WalletWithContext::new(
        String::from("b"),
        builder,
        Some(builder),
        vec![],
        false,
        AlertTo { bot_token: String::new(), chat_id: String::new(), thread_id: None },
    );
    let reports = process_block(CHAIN_MAINNET, &header, txs, &vec![w]).unwrap();
    let rep = reports[0].as_ref().unwrap();
    // (10 - 3) * 21000 for each of the three transactions
    let reward: u64 = 3 * 7 * 21000;
    assert_eq!(rep.builder_reward, u(reward));
    assert_eq!(rep.validator_bribe, u(bribe));
    // the builder sent the last tx: pnl = -bribe - fee + reward
    assert_eq!(i256_sign_and_abs(&rep.pnl), (true, u(bribe + FEE - reward)));
    assert_eq!(rep.txs.len(), 1);
    assert_eq!(rep.txs[0].index, 2);
}

#[test]
fn builder_reward_and_bribe_helpers() {
    let rs = vec![receipt(0, addr(1), addr(2), true), receipt(1, addr(1), addr(2), true)];
    assert_eq!(calculate_builder_reward(4, &rs), u(2 * 6 * 21000));

    let mut sheet = BalanceChanges::new();
    sheet.append_transfer(addr(0), addr(0x91), addr(0x92), u(500)).unwrap();
    sheet.append_transfer(addr(0), addr(0x91), addr(0x93), u(800)).unwrap();
    assert_eq!(find_validator_bribe(&sheet), u(800));
    assert_eq!(find_validator_bribe(&BalanceChanges::new()), U256::zero());
}

#[test]
fn tx_fee_on_optimism_needs_l1_fee() {
    let a = addr(0xa5);
    let b = addr(0xb5);
    let mut rc = receipt(0, a, b, true);
    // missing extension: the receipt is malformed for this chain
    assert_eq!(calculate_tx_fee(CHAIN_OPTIMISM, &rc), Err(EngineError::MalformedTrace));
    rc.l1_fee = Some(b"0x1000".to_vec());
    assert_eq!(calculate_tx_fee(CHAIN_OPTIMISM, &rc), Ok(pos(FEE + 0x1000)));
    rc.l1_fee = Some(b"0xnope".to_vec());
    assert_eq!(calculate_tx_fee(CHAIN_OPTIMISM, &rc), Err(EngineError::MalformedTrace));
    // elsewhere the extension is ignored
    assert_eq!(calculate_tx_fee(CHAIN_BSC, &rc), Ok(pos(FEE)));
}

#[test]
fn unsupported_chain_is_fatal() {
    let a = addr(0xa6);
    let b = addr(0xb6);
    let rc = receipt(0, a, b, true);
    // chain id 2 (Morden) has no wrapped-native token
    let r = generate_pnl(2, &rc, plain_frame(a, b, 10), None);
    assert_eq!(r.err(), Some(EngineError::UnsupportedChain));
}

#[test]
fn malformed_log_is_fatal() {
    let a = addr(0xa7);
    let b = addr(0xb7);
    let mut frame = plain_frame(a, b, 10);
    frame.logs = vec![LogEntry { address: None, topics: None, data: None }];
    let rc = receipt(0, a, b, true);
    let r = generate_pnl(CHAIN_MAINNET, &rc, frame, None);
    assert_eq!(r.err(), Some(EngineError::MalformedTrace));
}

#[test]
fn reverted_subcall_leaves_no_trace() {
    let a = addr(0xa8);
    let b = addr(0xb8);
    let c = addr(0xc8);
    let mut frame = plain_frame(a, b, 10);
    let mut reverted = plain_frame(b, c, 7);
    reverted.error = Some(String::from("execution reverted"));
    let mut inner_log = plain_frame(b, c, 0);
    inner_log.value = None;
    reverted.calls = vec![inner_log];
    frame.calls = vec![reverted];
    let rc = receipt(0, a, b, true);
    let sheet = generate_pnl(CHAIN_MAINNET, &rc, frame, None).unwrap();
    assert_eq!(sheet.len(), 2);
    assert_eq!(get_delta(&sheet, c, addr(0)), None);
    assert_eq!(get_delta(&sheet, b, addr(0)), Some(pos(10)));
}

#[test]
fn only_addresses_filter_restricts_the_sheet() {
    let a = addr(0xa9);
    let b = addr(0xb9);
    let c = addr(0xc9);
    let token = addr(0x7702);
    let mk = || {
        let mut f = plain_frame(a, b, 40);
        f.logs = vec![transfer_log(token, b, c, 9)];
        f
    };
    let rc = receipt(0, a, b, true);
    let full = generate_pnl(CHAIN_MAINNET, &rc, mk(), None).unwrap();
    let only = vec![a];
    let filtered = generate_pnl(CHAIN_MAINNET, &rc, mk(), Some(&only)).unwrap();
    // a's delta agrees on both sheets; the b-to-c transfer is dropped
    assert_eq!(get_delta(&full, a, addr(0)), Some(neg(40)));
    assert_eq!(get_delta(&filtered, a, addr(0)), Some(neg(40)));
    assert_eq!(get_delta(&full, c, token), Some(pos(9)));
    assert_eq!(get_delta(&filtered, c, token), None);
    // b is kept in the filtered sheet only through the a-to-b call
    assert_eq!(get_delta(&filtered, b, addr(0)), Some(pos(40)));
    assert_eq!(get_delta(&filtered, b, token), None);
}

#[test]
fn conservation_on_a_sample_sheet() {
    // conservation on concrete values: deltas sum to zero without mint or burn
    let a = addr(0xaa);
    let b = addr(0xbb);
    let c = addr(0xcc);
    let token = addr(0x7703);
    let mut frame = plain_frame(a, b, 33);
    frame.logs = vec![transfer_log(token, a, b, 10), transfer_log(token, b, c, 4)];
    let rc = receipt(0, a, b, true);
    let sheet = generate_pnl(CHAIN_MAINNET, &rc, frame, None).unwrap();
    let mut native_sum = I256::zero();
    let mut token_sum = I256::zero();
    for i in 0..sheet.len() {
        let acct = sheet.account_at(i);
        if let Some(v) = get_delta(&sheet, acct, addr(0)) {
            native_sum = wallet_watcher::int256::i256_checked_add(&native_sum, &v).unwrap();
        }
        if let Some(v) = get_delta(&sheet, acct, token) {
            token_sum = wallet_watcher::int256::i256_checked_add(&token_sum, &v).unwrap();
        }
    }
    assert!(native_sum.is_zero());
    assert!(token_sum.is_zero());
}

#[test]
fn prune_zero_twice_is_prune_once() {
    // pruning twice equals pruning once, on concrete values
    let a = addr(0xad);
    let b = addr(0xbd);
    let t = addr(0x7704);
    let mut s = BalanceChanges::new();
    s.append_transfer(t, a, b, u(5)).unwrap();
    s.append_transfer(t, b, a, u(5)).unwrap();
    s.append_transfer(t, a, b, u(2)).unwrap();
    s.retain_non_zero();
    let once: Vec<(Address, Vec<(Address, I256)>)> = snapshot(&s);
    s.retain_non_zero();
    assert_eq!(snapshot(&s), once);
    assert_eq!(get_delta(&s, a, t), Some(neg(2)));
    assert_eq!(get_delta(&s, b, t), Some(pos(2)));
}

fn snapshot(s: &BalanceChanges) -> Vec<(Address, Vec<(Address, I256)>)> {
    let mut out = Vec::new();
    for i in 0..s.len() {
        let a = s.account_at(i);
        let tb = s.table_at(i);
        let mut entries = Vec::new();
        for j in 0..tb.len() {
            entries.push(tb.entry_at(j));
        }
        out.push((a, entries));
    }
    out
}

#[test]
fn extract_ether_merges_native_and_wrapped() {
    let weth = wrapped_native_token(CHAIN_MAINNET).unwrap();
    // the real table gives the canonical WETH9 contract
    let expected = address_from_bytes(&vec![
        0xC0, 0x2a, 0xaA, 0x39, 0xb2, 0x23, 0xFE, 0x8D, 0x0A, 0x0e, 0x5C, 0x4F, 0x27, 0xeA, 0xD9,
        0x08, 0x3C, 0x75, 0x6C, 0xc2,
    ]);
    assert_eq!(weth, expected);
    assert!(is_weth9(CHAIN_MAINNET));
    assert!(is_weth9(CHAIN_BSC));
    assert!(!is_weth9(100));

    let mut bc = BalanceChange::new();
    bc.add_delta(addr(0), pos(30)).unwrap();
    bc.add_delta(weth, pos(12)).unwrap();
    bc.add_delta(addr(0x7705), pos(9)).unwrap();
    let ether = bc.extract_ether(CHAIN_MAINNET).unwrap();
    assert_eq!(ether, pos(42));
    assert_eq!(bc.len(), 1);
    assert_eq!(bc.get(&addr(0x7705)), Some(pos(9)));
    // a chain with no wrapped-native entry only takes the native delta
    let mut bc2 = BalanceChange::new();
    bc2.add_delta(addr(0), pos(3)).unwrap();
    bc2.add_delta(weth, pos(4)).unwrap();
    let ether2 = bc2.extract_ether(2).unwrap();
    assert_eq!(ether2, pos(3));
    assert_eq!(bc2.get(&weth), Some(pos(4)));
}

#[test]
fn config_validation() {
    let ok = Config {
        chains: vec![(String::from("mainnet"), String::from("ws://localhost:8546"))],
        channels: vec![Channel {
            alert: AlertTo { bot_token: String::new(), chat_id: String::new(), thread_id: None },
            wallets: vec![Wallet {
                name: String::from("w"),
                address: addr(1),
                builder: None,
                other_addresses: vec![],
                chains: vec![String::from("mainnet")],
                include_recipient: false,
            }],
        }],
    };
    assert!(ok.validate().is_ok());

    let unknown_chain = Config {
        chains: vec![(String::from("mainnet"), String::from("ws://localhost:8546"))],
        channels: vec![Channel {
            alert: AlertTo { bot_token: String::new(), chat_id: String::new(), thread_id: None },
            wallets: vec![Wallet {
                name: String::from("w"),
                address: addr(1),
                builder: None,
                other_addresses: vec![],
                chains: vec![String::from("base")],
                include_recipient: false,
            }],
        }],
    };
    assert_eq!(unknown_chain.validate(), Err(EngineError::ConfigInvalid));

    let empty_channel = Config {
        chains: vec![],
        channels: vec![Channel {
            alert: AlertTo { bot_token: String::new(), chat_id: String::new(), thread_id: None },
            wallets: vec![],
        }],
    };
    assert_eq!(empty_channel.validate(), Err(EngineError::ConfigInvalid));
}

#[test]
fn include_recipient_extends_the_universe() {
    // a wallet that forwards through an intermediary sees the recipient's flow
    let a = addr(0xaf);
    let proxy = addr(0xbf);
    let header = Header { number: 1, base_fee_per_gas: Some(1), miner: addr(0xee) };
    let w = WalletWithContext::new(
        String::from("w"),
        a,
        None,
        vec![],
        true,
        AlertTo { bot_token: String::new(), chat_id: String::new(), thread_id: None },
    );
    let reports = process_block(
        CHAIN_MAINNET,
        &header,
        vec![(receipt(0, a, proxy, true), plain_frame(a, proxy, 100))],
        &vec![w],
    )
    .unwrap();
    let rep = reports[0].as_ref().unwrap();
    // the 100 sent to the proxy count back in: only the fee is lost
    assert_eq!(i256_sign_and_abs(&rep.pnl), (true, u(FEE)));
}

#[test]
fn report_txs_sorted_by_index() {
    let a = addr(0xa0);
    let b = addr(0xbe);
    let header = Header { number: 1, base_fee_per_gas: Some(1), miner: addr(0xee) };
    let txs = vec![
        (receipt(0, a, b, true), plain_frame(a, b, 5)),
        (receipt(1, b, a, true), plain_frame(b, a, 1)),
        (receipt(2, a, b, true), plain_frame(a, b, 7)),
    ];
    let reports = process_block(CHAIN_MAINNET, &header, txs, &vec![wallet(a)]).unwrap();
    let rep: &PnlReport = reports[0].as_ref().unwrap();
    assert_eq!(rep.txs.len(), 3);
    assert!(rep.txs[0].index < rep.txs[1].index);
    assert!(rep.txs[1].index < rep.txs[2].index);
}

#[test]
fn fee_strictly_increases_with_gas_and_price() {
    let a = addr(0xf1);
    let b = addr(0xf2);
    let base = receipt(0, a, b, true);
    let mut more_gas = receipt(0, a, b, true);
    more_gas.gas_used = 21001;
    let mut more_price = receipt(0, a, b, true);
    more_price.effective_gas_price = 11;
    let f0 = calculate_tx_fee(CHAIN_BSC, &base).unwrap();
    let f1 = calculate_tx_fee(CHAIN_BSC, &more_gas).unwrap();
    let f2 = calculate_tx_fee(CHAIN_BSC, &more_price).unwrap();
    assert_eq!(f0, pos(210000));
    assert_eq!(f1, pos(210010));
    assert_eq!(f2, pos(231000));
}

#[test]
fn tx_position_string_shape() {
    let t = wallet_watcher::processor::TxAndPosition {
        index: 12,
        hash: wallet_watcher::types::B256 { hi: 0, lo: 0xabcd },
    };
    assert_eq!(
        t.position_string(),
        "0x000000000000000000000000000000000000000000000000000000000000abcd:12"
    );
}

#[test]
fn bucket_per_chain() {
    let cfg = Config {
        chains: vec![
            (String::from("mainnet"), String::from("ws://localhost:8546")),
            (String::from("base"), String::from("ws://localhost:8546")),
        ],
        channels: vec![Channel {
            alert: AlertTo { bot_token: String::new(), chat_id: String::new(), thread_id: None },
            wallets: vec![
                Wallet {
                    name: String::from("everywhere"),
                    address: addr(1),
                    builder: None,
                    other_addresses: vec![addr(9)],
                    chains: vec![],
                    include_recipient: false,
                },
                Wallet {
                    name: String::from("mainnet-only"),
                    address: addr(2),
                    builder: None,
                    other_addresses: vec![],
                    chains: vec![String::from("mainnet")],
                    include_recipient: false,
                },
            ],
        }],
    };
    let buckets = cfg.to_wallet_with_context_by_chain();
    assert_eq!(buckets.len(), 2);
    assert_eq!(buckets[0].0, "mainnet");
    assert_eq!(buckets[0].1.len(), 2);
    assert_eq!(buckets[0].1[0].address, addr(1));
    assert_eq!(buckets[0].1[0].involved_wallets(), &vec![addr(1), addr(9)]);
    assert_eq!(buckets[0].1[1].address, addr(2));
    assert_eq!(buckets[1].0, "base");
    assert_eq!(buckets[1].1.len(), 1);
    assert_eq!(buckets[1].1[0].name, "everywhere");
}

#[test]
fn pairing_receipts_with_traces() {
    let a = addr(0xe1);
    let b = addr(0xe2);
    let rs = vec![receipt(0, a, b, true), receipt(1, b, a, true)];
    let ts = vec![
        TraceResult::Success(plain_frame(a, b, 1)),
        TraceResult::Success(plain_frame(b, a, 2)),
    ];
    let paired = pair_receipts_and_traces(rs, ts).unwrap();
    assert_eq!(paired.len(), 2);
    assert_eq!(paired[0].0.transaction_index, 0);
    assert_eq!(paired[1].0.transaction_index, 1);

    let rs2 = vec![receipt(0, a, b, true)];
    assert_eq!(
        pair_receipts_and_traces(rs2, vec![]).err(),
        Some(EngineError::MalformedTrace)
    );
    let rs3 = vec![receipt(0, a, b, true)];
    let ts3 = vec![TraceResult::Error { error: String::from("boom"), tx_hash: None }];
    assert_eq!(
        pair_receipts_and_traces(rs3, ts3).err(),
        Some(EngineError::MalformedTrace)
    );
}

#[test]
fn delta_overflow_is_detected() {
    // two transfers of the largest positive value overflow the recipient's delta
    let a = addr(0x91);
    let b = addr(0x92);
    let t = addr(0x93);
    let big = U256 { l0: u64::MAX, l1: u64::MAX, l2: u64::MAX, l3: 0x7fff_ffff_ffff_ffff };
    let mut s = BalanceChanges::new();
    assert!(s.append_transfer(t, a, b, big).is_ok());
    assert_eq!(s.append_transfer(t, a, b, big), Err(EngineError::ArithmeticOverflow));
    // the failed transfer left the sheet unchanged
    assert_eq!(s.get(&b).unwrap().get(&t), Some(I256::from_raw(big)));
}
