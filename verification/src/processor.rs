//! The transfer extractor and the per-block PnL engine.
//!
//! A transaction's call-frame tree is walked breadth first; ERC-20 `Transfer`
//! logs, WETH9 `Deposit`/`Withdrawal` logs on chains whose canonical WETH9
//! emits them, and native-value calls become transfer tuples, which fold into
//! a per-account balance-change sheet.

use vstd::prelude::*;
use vstd::string::StringExecFns;
use crate::balance_changes::{
    BalanceChange, BalanceChanges, Sheet, Transfer, apply_transfer, apply_transfers, transfer_fits, prune_sheet,
    prune_entries, sheet_wf, sheet_set, sheet_add, sheet_delta, entry_set, as_signed, has_key,
    key_at, val_of, unique_keys, in_i256, lemma_key_at_unique, lemma_prune_sheet_empty,
    lemma_prune_sheet_push, lemma_filter_keys, lemma_filter_unique,
};
use crate::chain::{spec_is_weth9, spec_addr_of_bytes, wrapped_native_of, wrapped_native_token};
use crate::int256::{I256, U256, i256_val, u256_val, i256_checked_add, i256_checked_sub};
use crate::types::{Address, B256, CallFrame, CallKind, EngineError, Header, LogEntry, Receipt,
    spec_addr_of_word};
use crate::config::WalletWithContext;
use crate::utils::{DecodedEvent, EventKind, spec_log_matches, spec_word_val, primitive_log_decode};

verus! {

// ---------------------------------------------------------------------------
// Pure views of logs and frames
// ---------------------------------------------------------------------------

/// The pure view of one emitted log.
pub struct LogView {
    pub address: Option<Address>,
    pub topics: Seq<B256>,
    pub data: Seq<u8>,
}

pub open spec fn log_view(l: LogEntry) -> LogView {
    LogView { address: l.address, topics: l.spec_topics(), data: l.spec_data() }
}

/// The pure view of a call frame: a missing value reads as zero, the two
/// revert markers fold into one flag.
pub struct FrameView {
    pub kind: CallKind,
    pub from: Address,
    pub to: Option<Address>,
    pub value: nat,
    pub reverted: bool,
    pub logs: Seq<LogView>,
    pub calls: Seq<FrameView>,
}

pub open spec fn frame_view(f: CallFrame) -> FrameView
    decreases f,
{
    FrameView {
        kind: f.typ,
        from: f.from,
        to: f.to,
        value: match f.value {
            Some(v) => u256_val(v),
            None => 0,
        },
        reverted: f.spec_reverted(),
        logs: f.logs@.map_values(|l: LogEntry| log_view(l)),
        calls: frames_view(f.calls@),
    }
}

pub open spec fn frames_view(q: Seq<CallFrame>) -> Seq<FrameView>
    decreases q,
{
    if q.len() == 0 {
        Seq::empty()
    } else {
        seq![frame_view(q[0])] + frames_view(q.subrange(1, q.len() as int))
    }
}

pub proof fn lemma_frames_view_concat(a: Seq<CallFrame>, b: Seq<CallFrame>)
    ensures
        frames_view(a + b) == frames_view(a) + frames_view(b),
    decreases a.len(),
{
    if a.len() == 0 {
        assert(a + b =~= b);
        assert(frames_view(a) + frames_view(b) =~= frames_view(b));
    } else {
        assert((a + b).subrange(1, (a + b).len() as int) =~= a.subrange(1, a.len() as int) + b);
        lemma_frames_view_concat(a.subrange(1, a.len() as int), b);
        assert((a + b)[0] == a[0]);
        assert(frames_view(a + b) =~= frames_view(a) + frames_view(b));
    }
}

// ---------------------------------------------------------------------------
// Size measure for the breadth-first walk
// ---------------------------------------------------------------------------

/// The number of frames in a tree.
pub open spec fn fv_size(f: FrameView) -> nat
    decreases f,
{
    1 + fvs_size(f.calls)
}

/// The number of frames in a forest.
pub open spec fn fvs_size(q: Seq<FrameView>) -> nat
    decreases q,
{
    if q.len() == 0 {
        0
    } else {
        fv_size(q[0]) + fvs_size(q.subrange(1, q.len() as int))
    }
}

pub proof fn lemma_fvs_size_concat(a: Seq<FrameView>, b: Seq<FrameView>)
    ensures
        fvs_size(a + b) == fvs_size(a) + fvs_size(b),
    decreases a.len(),
{
    if a.len() == 0 {
        assert(a + b =~= b);
    } else {
        assert((a + b).subrange(1, (a + b).len() as int) =~= a.subrange(1, a.len() as int) + b);
        lemma_fvs_size_concat(a.subrange(1, a.len() as int), b);
        assert((a + b)[0] == a[0]);
    }
}

// ---------------------------------------------------------------------------
// What one log and one frame emit
// ---------------------------------------------------------------------------

/// A log is readable: it has an address and at most four topics.
pub open spec fn log_ok(l: LogView) -> bool {
    l.address is Some && l.topics.len() <= 4
}

pub open spec fn logs_ok(ls: Seq<LogView>) -> bool {
    forall|i: int| 0 <= i < ls.len() ==> log_ok(#[trigger] ls[i])
}

/// The transfer one log stands for, decoded in priority order: an ERC-20
/// `Transfer` from any contract; else, only on the emitting chains and only
/// from the wrapped-native contract itself, a WETH9 `Withdrawal` (a burn to
/// the zero address) or `Deposit` (a mint from the zero address).
pub open spec fn spec_log_transfer(l: LogView, chain_id: u64, weth: Address) -> Option<Transfer> {
    match l.address {
        None => None,
        Some(addr) => {
            if spec_log_matches(l.topics, l.data, EventKind::Erc20Transfer) {
                Some(
                    Transfer {
                        token: addr,
                        from: spec_addr_of_word(l.topics[1]),
                        to: spec_addr_of_word(l.topics[2]),
                        value: spec_word_val(l.data),
                    },
                )
            } else if addr == weth && spec_is_weth9(chain_id) {
                if spec_log_matches(l.topics, l.data, EventKind::Weth9Withdrawal) {
                    Some(
                        Transfer {
                            token: weth,
                            from: spec_addr_of_word(l.topics[1]),
                            to: Address::spec_zero(),
                            value: spec_word_val(l.data),
                        },
                    )
                } else if spec_log_matches(l.topics, l.data, EventKind::Weth9Deposit) {
                    Some(
                        Transfer {
                            token: weth,
                            from: Address::spec_zero(),
                            to: spec_addr_of_word(l.topics[1]),
                            value: spec_word_val(l.data),
                        },
                    )
                } else {
                    None
                }
            } else {
                None
            }
        },
    }
}

/// Whether a transfer passes the optional address filter: kept when either
/// endpoint is in the set, or when there is no filter.
pub open spec fn spec_relevant(filter: Option<Seq<Address>>, from: Address, to: Address) -> bool {
    match filter {
        None => true,
        Some(s) => s.contains(from) || s.contains(to),
    }
}

/// The transfers a frame's logs emit, in emit order, filtered.
pub open spec fn logs_transfers(
    ls: Seq<LogView>,
    chain_id: u64,
    weth: Address,
    filter: Option<Seq<Address>>,
) -> Seq<Transfer>
    decreases ls.len(),
{
    if ls.len() == 0 {
        Seq::empty()
    } else {
        let rest = logs_transfers(ls.subrange(1, ls.len() as int), chain_id, weth, filter);
        match spec_log_transfer(ls[0], chain_id, weth) {
            Some(tr) => if spec_relevant(filter, tr.from, tr.to) {
                seq![tr] + rest
            } else {
                rest
            },
            None => rest,
        }
    }
}

/// The native-value transfer of a frame: only call kinds that move value,
/// and only a non-zero value; a missing recipient reads as the zero address.
pub open spec fn native_transfer(f: FrameView) -> Option<Transfer> {
    if f.value != 0 && f.kind.spec_moves_value() {
        Some(
            Transfer {
                token: Address::spec_zero(),
                from: f.from,
                to: match f.to {
                    Some(t) => t,
                    None => Address::spec_zero(),
                },
                value: f.value,
            },
        )
    } else {
        None
    }
}

/// Everything one non-reverted frame emits: its logs' transfers, then its
/// native transfer.
pub open spec fn frame_emits(
    f: FrameView,
    chain_id: u64,
    weth: Address,
    filter: Option<Seq<Address>>,
) -> Seq<Transfer> {
    logs_transfers(f.logs, chain_id, weth, filter) + (match native_transfer(f) {
        Some(tr) => if spec_relevant(filter, tr.from, tr.to) {
            seq![tr]
        } else {
            Seq::empty()
        },
        None => Seq::empty(),
    })
}

// ---------------------------------------------------------------------------
// The breadth-first walk
// ---------------------------------------------------------------------------

/// Every log of every visited frame is readable; reverted frames and their
/// subtrees are not visited.
pub open spec fn walk_ok(q: Seq<FrameView>) -> bool
    decreases fvs_size(q),
    via walk_ok_decreases
{
    if q.len() == 0 {
        true
    } else if q[0].reverted {
        walk_ok(q.subrange(1, q.len() as int))
    } else {
        logs_ok(q[0].logs) && walk_ok(q.subrange(1, q.len() as int) + q[0].calls)
    }
}

#[via_fn]
proof fn walk_ok_decreases(q: Seq<FrameView>) {
    if q.len() > 0 {
        lemma_fvs_size_concat(q.subrange(1, q.len() as int), q[0].calls);
        assert(fvs_size(q) == fv_size(q[0]) + fvs_size(q.subrange(1, q.len() as int)));
        assert(fv_size(q[0]) >= 1);
    }
}

/// The transfers a queue of frames emits, breadth first: a frame's logs and
/// native transfer first, then the rest of the queue, with the frame's
/// children appended at the back.
pub open spec fn walk_transfers(
    q: Seq<FrameView>,
    chain_id: u64,
    weth: Address,
    filter: Option<Seq<Address>>,
) -> Seq<Transfer>
    decreases fvs_size(q),
    via walk_transfers_decreases
{
    if q.len() == 0 {
        Seq::empty()
    } else if q[0].reverted {
        walk_transfers(q.subrange(1, q.len() as int), chain_id, weth, filter)
    } else {
        frame_emits(q[0], chain_id, weth, filter) + walk_transfers(
            q.subrange(1, q.len() as int) + q[0].calls,
            chain_id,
            weth,
            filter,
        )
    }
}

#[via_fn]
proof fn walk_transfers_decreases(
    q: Seq<FrameView>,
    chain_id: u64,
    weth: Address,
    filter: Option<Seq<Address>>,
) {
    if q.len() > 0 {
        lemma_fvs_size_concat(q.subrange(1, q.len() as int), q[0].calls);
        assert(fvs_size(q) == fv_size(q[0]) + fvs_size(q.subrange(1, q.len() as int)));
        assert(fv_size(q[0]) >= 1);
    }
}

/// Every transfer of the list keeps every delta inside the 256-bit range.
pub open spec fn fits_all(s: Sheet, ts: Seq<Transfer>) -> bool
    decreases ts.len(),
{
    if ts.len() == 0 {
        true
    } else {
        transfer_fits(s, ts[0]) && fits_all(apply_transfer(s, ts[0]), ts.subrange(1, ts.len() as int))
    }
}

} // verus!

verus! {

/// One extracted transfer: `value`'s raw bits are read as two's complement
/// when the transfer is applied to a sheet.
#[derive(Clone, Copy)]
pub struct TransferRec {
    pub token: Address,
    pub from: Address,
    pub to: Address,
    pub value: U256,
}

pub open spec fn rec_view(r: TransferRec) -> Transfer {
    Transfer { token: r.token, from: r.from, to: r.to, value: u256_val(r.value) }
}

pub open spec fn recs_view(s: Seq<TransferRec>) -> Seq<Transfer> {
    s.map_values(|r: TransferRec| rec_view(r))
}

pub open spec fn filter_view(f: Option<&Vec<Address>>) -> Option<Seq<Address>> {
    match f {
        Some(v) => Some(v@),
        None => None,
    }
}

fn contains_addr(v: &Vec<Address>, a: &Address) -> (r: bool)
    ensures
        r == v@.contains(*a),
{
    let n = v.len();
    let mut i: usize = 0;
    while i < n
        invariant
            n == v@.len(),
            i <= n,
            forall|j: int| 0 <= j < i ==> v@[j] != *a,
        decreases n - i,
    {
        if v[i] == *a {
            assert(v@.contains(*a));
            return true;
        }
        i = i + 1;
    }
    assert(!v@.contains(*a));
    false
}

fn is_relevant(filter: Option<&Vec<Address>>, from: &Address, to: &Address) -> (r: bool)
    ensures
        r == spec_relevant(filter_view(filter), *from, *to),
{
    match filter {
        None => true,
        Some(s) => contains_addr(s, from) || contains_addr(s, to),
    }
}

/// Walk the frame tree breadth first and collect the transfer tuples its
/// logs and native-value calls emit, keeping only those the filter admits.
/// `Err` exactly when some visited log misses its address or carries more
/// than four topics.
fn collect_transfers(
    frame: CallFrame,
    chain_id: u64,
    weth: Address,
    filter: Option<&Vec<Address>>,
) -> (r: Result<Vec<TransferRec>, EngineError>)
    ensures
        match r {
            Ok(v) => walk_ok(seq![frame_view(frame)]) && recs_view(v@) == walk_transfers(
                seq![frame_view(frame)],
                chain_id,
                weth,
                filter_view(filter),
            ),
            Err(e) => e == EngineError::MalformedTrace && !walk_ok(seq![frame_view(frame)]),
        },
{
    let ghost init = seq![frame_view(frame)];
    let ghost fl = filter_view(filter);
    let mut queue: Vec<CallFrame> = Vec::new();
    let mut out: Vec<TransferRec> = Vec::new();
    queue.push(frame);
    proof {
        assert(queue@ =~= seq![queue@[0]]);
        assert(frames_view(queue@) =~= init) by {
            assert(queue@.subrange(1, 1) =~= Seq::<CallFrame>::empty());
            assert(frames_view(queue@) == seq![frame_view(queue@[0])] + frames_view(
                queue@.subrange(1, 1),
            ));
        };
        assert(recs_view(out@) =~= Seq::<Transfer>::empty());
        assert(recs_view(out@) + walk_transfers(frames_view(queue@), chain_id, weth, fl)
            =~= walk_transfers(init, chain_id, weth, fl));
    }
    while !queue.is_empty()
        invariant
            init == seq![frame_view(frame)],
            walk_ok(init) == walk_ok(frames_view(queue@)),
            recs_view(out@) + walk_transfers(frames_view(queue@), chain_id, weth, fl)
                == walk_transfers(init, chain_id, weth, fl),
            fl == filter_view(filter),
        decreases fvs_size(frames_view(queue@)),
    {
        let ghost pre_remove = queue@;
        let ghost q_pre = frames_view(queue@);
        let mut f = queue.remove(0);
        let ghost fv = frame_view(f);
        let ghost rest = frames_view(queue@);
        proof {
            assert(queue@ =~= pre_remove.subrange(1, pre_remove.len() as int));
            assert(q_pre == seq![fv] + rest) by {
                assert(q_pre == seq![frame_view(pre_remove[0])] + frames_view(
                    pre_remove.subrange(1, pre_remove.len() as int),
                ));
                assert(frame_view(pre_remove[0]) == fv);
                assert(frames_view(pre_remove.subrange(1, pre_remove.len() as int)) == rest);
            };
        }
        proof {
            assert(q_pre.len() > 0);
            assert(q_pre[0] == fv) by {
                assert((seq![fv] + rest)[0] == fv);
            };
            assert(q_pre.subrange(1, q_pre.len() as int) =~= rest);
            lemma_fvs_size_concat(seq![fv], rest);
            assert(fvs_size(q_pre) == fv_size(fv) + fvs_size(rest)) by {
                assert(fvs_size(seq![fv]) == fv_size(fv) + fvs_size(seq![fv].subrange(1, 1)));
                assert(seq![fv].subrange(1, 1) =~= Seq::<FrameView>::empty());
            };
        }
        if f.reverted() {
            proof {
                assert(walk_ok(q_pre) == walk_ok(rest));
                assert(walk_transfers(q_pre, chain_id, weth, fl) == walk_transfers(
                    rest,
                    chain_id,
                    weth,
                    fl,
                ));
            }
            continue;
        }
        // fv is not reverted: its logs first, then its children, then its
        // native transfer.
        let ghost flv = fv.logs;
        let ghost tail = walk_transfers(rest + fv.calls, chain_id, weth, fl);
        let ghost native_part = (match native_transfer(fv) {
            Some(tr) => if spec_relevant(fl, tr.from, tr.to) {
                seq![tr]
            } else {
                Seq::<Transfer>::empty()
            },
            None => Seq::<Transfer>::empty(),
        });
        proof {
            assert(walk_transfers(q_pre, chain_id, weth, fl) == frame_emits(fv, chain_id, weth, fl)
                + tail);
            assert(walk_ok(q_pre) == (logs_ok(flv) && walk_ok(rest + fv.calls)));
            assert(recs_view(out@) + (logs_transfers(flv, chain_id, weth, fl) + (native_part
                + tail)) == walk_transfers(init, chain_id, weth, fl)) by {
                assert(frame_emits(fv, chain_id, weth, fl) == logs_transfers(
                    flv,
                    chain_id,
                    weth,
                    fl,
                ) + native_part);
                assert(recs_view(out@) + ((logs_transfers(flv, chain_id, weth, fl) + native_part)
                    + tail) =~= recs_view(out@) + (logs_transfers(flv, chain_id, weth, fl) + (
                native_part + tail)));
            };
            assert(flv.subrange(0, flv.len() as int) =~= flv);
        }
        let nlogs = f.logs.len();
        let mut i: usize = 0;
        while i < nlogs
            invariant
                init == seq![frame_view(frame)],
                nlogs == f.logs@.len(),
                i <= nlogs,
                flv == frame_view(f).logs,
                flv.len() == nlogs,
                forall|j: int| 0 <= j < i ==> log_ok(#[trigger] flv[j]),
                recs_view(out@) + (logs_transfers(
                    flv.subrange(i as int, flv.len() as int),
                    chain_id,
                    weth,
                    fl,
                ) + (native_part + tail)) == walk_transfers(init, chain_id, weth, fl),
                walk_ok(init) == (logs_ok(flv) && walk_ok(rest + fv.calls)),
                fl == filter_view(filter),
            decreases nlogs - i,
        {
            let ghost lv = flv[i as int];
            let ghost remaining = flv.subrange(i as int, flv.len() as int);
            proof {
                assert(lv == log_view(f.logs@[i as int]));
                assert(remaining[0] == lv);
                assert(remaining.subrange(1, remaining.len() as int) =~= flv.subrange(
                    i + 1 as int,
                    flv.len() as int,
                ));
            }
            let log = &f.logs[i];
            let log_addr_opt = log.address;
            let addr = match log_addr_opt {
                Some(a) => a,
                None => {
                    proof {
                        assert(!log_ok(lv));
                        assert(!logs_ok(flv));
                    }
                    return Err(EngineError::MalformedTrace);
                },
            };
            let topics_ok = match &log.topics {
                Some(t) => t.len() <= 4,
                None => true,
            };
            if !topics_ok {
                proof {
                    assert(lv.topics.len() > 4);
                    assert(!log_ok(lv));
                    assert(!logs_ok(flv));
                }
                return Err(EngineError::MalformedTrace);
            }
            proof {
                assert(log_ok(lv));
            }
            // decode in priority order
            let mut emitted: Option<TransferRec> = None;
            match primitive_log_decode(log, EventKind::Erc20Transfer) {
                Some(DecodedEvent::Erc20Transfer { from, to, value }) => {
                    emitted = Some(TransferRec { token: addr, from, to, value });
                },
                Some(_) => {
                    proof {
                        assert(false);
                    }
                },
                None => {
                    if addr == weth && crate::chain::is_weth9(chain_id) {
                        match primitive_log_decode(log, EventKind::Weth9Withdrawal) {
                            Some(DecodedEvent::Weth9Withdrawal { src, wad }) => {
                                emitted = Some(
                                    TransferRec {
                                        token: weth,
                                        from: src,
                                        to: Address::zero(),
                                        value: wad,
                                    },
                                );
                            },
                            Some(_) => {
                                proof {
                                    assert(false);
                                }
                            },
                            None => {
                                match primitive_log_decode(log, EventKind::Weth9Deposit) {
                                    Some(DecodedEvent::Weth9Deposit { dst, wad }) => {
                                        emitted = Some(
                                            TransferRec {
                                                token: weth,
                                                from: Address::zero(),
                                                to: dst,
                                                value: wad,
                                            },
                                        );
                                    },
                                    Some(_) => {
                                        proof {
                                            assert(false);
                                        }
                                    },
                                    None => {},
                                }
                            },
                        }
                    }
                },
            }
            match emitted {
                Some(rec) => {
                    proof {
                        assert(spec_log_transfer(lv, chain_id, weth) == Some(rec_view(rec)));
                    }
                    if is_relevant(filter, &rec.from, &rec.to) {
                        let ghost prev_out = out@;
                        out.push(rec);
                        proof {
                            let tr = rec_view(rec);
                            assert(logs_transfers(remaining, chain_id, weth, fl) == seq![tr]
                                + logs_transfers(
                                flv.subrange(i + 1 as int, flv.len() as int),
                                chain_id,
                                weth,
                                fl,
                            ));
                            assert(recs_view(out@) =~= recs_view(prev_out).push(tr));
                            assert(recs_view(out@) + (logs_transfers(
                                flv.subrange(i + 1 as int, flv.len() as int),
                                chain_id,
                                weth,
                                fl,
                            ) + (native_part + tail)) =~= recs_view(prev_out) + (logs_transfers(
                                remaining,
                                chain_id,
                                weth,
                                fl,
                            ) + (native_part + tail)));
                        }
                    } else {
                        proof {
                            assert(logs_transfers(remaining, chain_id, weth, fl) == logs_transfers(
                                flv.subrange(i + 1 as int, flv.len() as int),
                                chain_id,
                                weth,
                                fl,
                            ));
                        }
                    }
                },
                None => {
                    proof {
                        assert(spec_log_transfer(lv, chain_id, weth) is None);
                        assert(logs_transfers(remaining, chain_id, weth, fl) == logs_transfers(
                            flv.subrange(i + 1 as int, flv.len() as int),
                            chain_id,
                            weth,
                            fl,
                        ));
                    }
                },
            }
            i = i + 1;
        }
        proof {
            assert(logs_ok(flv));
            assert(flv.subrange(flv.len() as int, flv.len() as int) =~= Seq::<LogView>::empty());
            assert(logs_transfers(Seq::<LogView>::empty(), chain_id, weth, fl) =~= Seq::<
                Transfer,
            >::empty());
            assert(recs_view(out@) + (native_part + tail) =~= recs_view(out@) + (logs_transfers(
                flv.subrange(flv.len() as int, flv.len() as int),
                chain_id,
                weth,
                fl,
            ) + (native_part + tail)));
        }
        let ghost pre_append = queue@;
        let ghost calls_pre = f.calls@;
        queue.append(&mut f.calls);
        proof {
            assert(queue@ == pre_append + calls_pre);
            lemma_frames_view_concat(pre_append, calls_pre);
            assert(frames_view(pre_append) == rest);
            assert(frames_view(calls_pre) == fv.calls);
            assert(frames_view(queue@) == rest + fv.calls);
        }
        // the native-value transfer comes after the frame's logs
        let mut has_value = false;
        let mut value = U256::zero();
        match &f.value {
            Some(v) => {
                if !v.is_zero() {
                    has_value = true;
                    value = *v;
                }
            },
            None => {},
        }
        if has_value && f.typ.moves_value() {
            let to_addr = match f.to {
                Some(t) => t,
                None => Address::zero(),
            };
            let rec = TransferRec { token: Address::zero(), from: f.from, to: to_addr, value };
            proof {
                assert(native_transfer(fv) == Some(rec_view(rec)));
            }
            if is_relevant(filter, &rec.from, &rec.to) {
                let ghost prev_out = out@;
                out.push(rec);
                proof {
                    let tr = rec_view(rec);
                    assert(native_part == seq![tr]);
                    assert(recs_view(out@) =~= recs_view(prev_out).push(tr));
                    assert(recs_view(out@) + tail =~= recs_view(prev_out) + (native_part + tail));
                }
            } else {
                proof {
                    assert(native_part =~= Seq::<Transfer>::empty());
                    assert(recs_view(out@) + tail =~= recs_view(out@) + (native_part + tail));
                }
            }
        } else {
            proof {
                assert(native_transfer(fv) is None);
                assert(native_part =~= Seq::<Transfer>::empty());
                assert(recs_view(out@) + tail =~= recs_view(out@) + (native_part + tail));
            }
        }
        proof {
            lemma_fvs_size_concat(rest, fv.calls);
            assert(fv_size(fv) == 1 + fvs_size(fv.calls));
        }
    }
    proof {
        assert(queue@.len() == 0);
        assert(frames_view(queue@) =~= Seq::<FrameView>::empty());
        assert(walk_ok(Seq::<FrameView>::empty()));
        assert(walk_transfers(Seq::<FrameView>::empty(), chain_id, weth, fl) =~= Seq::<
            Transfer,
        >::empty());
        assert(recs_view(out@) =~= walk_transfers(init, chain_id, weth, fl));
    }
    Ok(out)
}

} // verus!

verus! {

/// The balance-change sheet of one transaction: empty for a failed
/// transaction; else the pruned fold of every transfer its call tree emits.
/// `Err(UnsupportedChain)` exactly when the chain has no wrapped-native
/// token, `Err(MalformedTrace)` exactly when a visited log misses its
/// address or carries more than four topics, `Err(ArithmeticOverflow)`
/// exactly when a delta leaves the 256-bit range.
pub fn generate_pnl(
    chain_id: u64,
    receipt: &Receipt,
    call_trace: CallFrame,
    only_addresses: Option<&Vec<Address>>,
) -> (r: Result<BalanceChanges, EngineError>)
    ensures
        ({
            let q0 = seq![frame_view(call_trace)];
            let fl = filter_view(only_addresses);
            let empty = Seq::<(Address, Seq<(Address, int)>)>::empty();
            if !receipt.status {
                r matches Ok(s) && s@ == empty && s.wf()
            } else {
                match wrapped_native_of(chain_id) {
                    None => r == Err::<BalanceChanges, EngineError>(EngineError::UnsupportedChain),
                    Some(wb) => {
                        let weth = spec_addr_of_bytes(wb);
                        let ts = walk_transfers(q0, chain_id, weth, fl);
                        if !walk_ok(q0) {
                            r == Err::<BalanceChanges, EngineError>(EngineError::MalformedTrace)
                        } else if !fits_all(empty, ts) {
                            r == Err::<BalanceChanges, EngineError>(
                                EngineError::ArithmeticOverflow,
                            )
                        } else {
                            r matches Ok(s) && s@ == prune_sheet(apply_transfers(empty, ts))
                                && s.wf()
                        }
                    },
                }
            }
        }),
{
    let ghost q0 = seq![frame_view(call_trace)];
    let ghost empty = Seq::<(Address, Seq<(Address, int)>)>::empty();
    if !receipt.status {
        return Ok(BalanceChanges::new());
    }
    let weth = match wrapped_native_token(chain_id) {
        Some(w) => w,
        None => {
            return Err(EngineError::UnsupportedChain);
        },
    };
    let recs = match collect_transfers(call_trace, chain_id, weth, only_addresses) {
        Ok(v) => v,
        Err(e) => {
            return Err(e);
        },
    };
    let ghost fl = filter_view(only_addresses);
    let ghost ts = walk_transfers(q0, chain_id, weth, fl);
    let mut bcs = BalanceChanges::new();
    let n = recs.len();
    let mut i: usize = 0;
    proof {
        assert(ts.subrange(0, n as int) =~= ts);
    }
    while i < n
        invariant
            n == recs@.len(),
            i <= n,
            receipt.status,
            q0 == seq![frame_view(call_trace)],
            fl == filter_view(only_addresses),
            wrapped_native_of(chain_id) matches Some(wb) && weth == spec_addr_of_bytes(wb),
            walk_ok(q0),
            ts == walk_transfers(q0, chain_id, weth, fl),
            ts == recs_view(recs@),
            bcs.wf(),
            fits_all(empty, ts) == fits_all(bcs@, ts.subrange(i as int, n as int)),
            apply_transfers(empty, ts) == apply_transfers(bcs@, ts.subrange(i as int, n as int)),
            empty == Seq::<(Address, Seq<(Address, int)>)>::empty(),
        decreases n - i,
    {
        let rec = recs[i];
        let ghost pre = bcs@;
        let ghost suffix = ts.subrange(i as int, n as int);
        proof {
            assert(rec_view(recs@[i as int]) == ts[i as int]);
            assert(suffix[0] == ts[i as int]);
            assert(suffix.subrange(1, suffix.len() as int) =~= ts.subrange(
                i + 1 as int,
                n as int,
            ));
        }
        match bcs.append_transfer(rec.token, rec.from, rec.to, rec.value) {
            Ok(()) => {
                proof {
                    assert(bcs@ == apply_transfer(pre, ts[i as int]));
                }
            },
            Err(e) => {
                proof {
                    assert(!transfer_fits(pre, ts[i as int]));
                    assert(!fits_all(pre, suffix));
                }
                return Err(e);
            },
        }
        i = i + 1;
    }
    proof {
        assert(ts.subrange(n as int, n as int) =~= Seq::<Transfer>::empty());
        assert(fits_all(bcs@, Seq::<Transfer>::empty()));
        assert(apply_transfers(bcs@, Seq::<Transfer>::empty()) == bcs@);
    }
    bcs.retain_non_zero();
    Ok(bcs)
}

} // verus!

verus! {

// ---------------------------------------------------------------------------
// Filter correctness
// ---------------------------------------------------------------------------

/// The predicate the address filter applies to a transfer.
pub open spec fn relevant_to(s: Seq<Address>) -> spec_fn(Transfer) -> bool {
    |tr: Transfer| s.contains(tr.from) || s.contains(tr.to)
}

proof fn lemma_logs_filter(
    ls: Seq<LogView>,
    chain_id: u64,
    weth: Address,
    s: Seq<Address>,
)
    ensures
        logs_transfers(ls, chain_id, weth, Some(s)) == logs_transfers(
            ls,
            chain_id,
            weth,
            None,
        ).filter(relevant_to(s)),
    decreases ls.len(),
{
    reveal_with_fuel(Seq::filter, 3);
    if ls.len() == 0 {
    } else {
        let rest = ls.subrange(1, ls.len() as int);
        lemma_logs_filter(rest, chain_id, weth, s);
        let pred = relevant_to(s);
        let uf = logs_transfers(rest, chain_id, weth, None);
        match spec_log_transfer(ls[0], chain_id, weth) {
            Some(tr) => {
                Seq::filter_distributes_over_add(seq![tr], uf, pred);
                assert(seq![tr].drop_last() =~= Seq::<Transfer>::empty());
                assert(seq![tr].last() == tr);
                if pred(tr) {
                    assert(seq![tr].filter(pred) =~= seq![tr]);
                    assert(spec_relevant(Some(s), tr.from, tr.to));
                    assert(logs_transfers(ls, chain_id, weth, None) == seq![tr] + uf);
                    assert(logs_transfers(ls, chain_id, weth, Some(s)) == seq![tr]
                        + logs_transfers(rest, chain_id, weth, Some(s)));
                } else {
                    assert(seq![tr].filter(pred) =~= Seq::<Transfer>::empty());
                    assert(!spec_relevant(Some(s), tr.from, tr.to));
                    assert(Seq::<Transfer>::empty() + uf.filter(pred) =~= uf.filter(pred));
                }
            },
            None => {},
        }
    }
}

/// The filtered walk is the unfiltered walk, filtered.
pub proof fn lemma_walk_filter(
    q: Seq<FrameView>,
    chain_id: u64,
    weth: Address,
    s: Seq<Address>,
)
    ensures
        walk_transfers(q, chain_id, weth, Some(s)) == walk_transfers(q, chain_id, weth, None).filter(
            relevant_to(s),
        ),
    decreases fvs_size(q),
{
    reveal_with_fuel(Seq::filter, 3);
    let pred = relevant_to(s);
    if q.len() == 0 {
        assert(walk_transfers(q, chain_id, weth, None).filter(pred) =~= Seq::<Transfer>::empty());
    } else {
        let rest = q.subrange(1, q.len() as int);
        proof_fvs_head(q);
        if q[0].reverted {
            lemma_walk_filter(rest, chain_id, weth, s);
        } else {
            lemma_fvs_size_concat(rest, q[0].calls);
            lemma_walk_filter(rest + q[0].calls, chain_id, weth, s);
            lemma_logs_filter(q[0].logs, chain_id, weth, s);
            let lu = logs_transfers(q[0].logs, chain_id, weth, None);
            let nu = (match native_transfer(q[0]) {
                Some(tr) => if spec_relevant(None, tr.from, tr.to) {
                    seq![tr]
                } else {
                    Seq::<Transfer>::empty()
                },
                None => Seq::<Transfer>::empty(),
            });
            let wu = walk_transfers(rest + q[0].calls, chain_id, weth, None);
            assert(walk_transfers(q, chain_id, weth, None) == (lu + nu) + wu);
            Seq::filter_distributes_over_add(lu + nu, wu, pred);
            Seq::filter_distributes_over_add(lu, nu, pred);
            match native_transfer(q[0]) {
                Some(tr) => {
                    assert(nu =~= seq![tr]);
                    assert(seq![tr].drop_last() =~= Seq::<Transfer>::empty());
                    if pred(tr) {
                        assert(nu.filter(pred) =~= seq![tr]);
                        assert(spec_relevant(Some(s), tr.from, tr.to));
                    } else {
                        assert(nu.filter(pred) =~= Seq::<Transfer>::empty());
                        assert(!spec_relevant(Some(s), tr.from, tr.to));
                    }
                },
                None => {
                    assert(nu.filter(pred) =~= Seq::<Transfer>::empty());
                },
            }
            assert(frame_emits(q[0], chain_id, weth, Some(s)) == lu.filter(pred) + nu.filter(pred));
            assert(walk_transfers(q, chain_id, weth, Some(s)) == (lu.filter(pred) + nu.filter(pred))
                + wu.filter(pred));
        }
    }
}

proof fn proof_fvs_head(q: Seq<FrameView>)
    requires
        q.len() > 0,
    ensures
        fvs_size(q) == fv_size(q[0]) + fvs_size(q.subrange(1, q.len() as int)),
        fv_size(q[0]) >= 1,
{
}

/// The two sheets agree at the account: bound in one exactly when bound in
/// the other, and then to the same table.
pub open spec fn lookup_eq(u: Sheet, f: Sheet, a: Address) -> bool {
    &&& has_key(u, a) == has_key(f, a)
    &&& (has_key(u, a) ==> val_of(u, a) == val_of(f, a))
}

/// The table a sheet binds to an account, empty when absent.
pub open spec fn table_of(s: Sheet, a: Address) -> Seq<(Address, int)> {
    if has_key(s, a) {
        val_of(s, a)
    } else {
        Seq::empty()
    }
}

/// How `sheet_set` reads back, at the set account and at any other.
proof fn lemma_sheet_set_lookup(s: Sheet, x: Address, t: Address, v: int, a: Address)
    requires
        unique_keys(s),
    ensures
        unique_keys(sheet_set(s, x, t, v)),
        has_key(sheet_set(s, x, t, v), x),
        val_of(sheet_set(s, x, t, v), x) == entry_set(
            table_of(s, x),
            t,
            v,
        ),
        a != x ==> has_key(sheet_set(s, x, t, v), a) == has_key(s, a),
        a != x && has_key(s, a) ==> val_of(sheet_set(s, x, t, v), a) == val_of(s, a),
    decreases 0int,
{
    let s2 = sheet_set(s, x, t, v);
    if has_key(s, x) {
        let i = key_at(s, x);
        assert(0 <= i < s.len() && s[i].0 == x);
        assert(unique_keys(s2));
        lemma_key_at_unique(s2, x, i);
        if a != x {
            if has_key(s, a) {
                let j = key_at(s, a);
                assert(s2[j] == s[j]);
                lemma_key_at_unique(s2, a, j);
            } else {
                if has_key(s2, a) {
                    let j = key_at(s2, a);
                    assert(s[j].0 == a);
                }
            }
        }
    } else {
        assert(s2 == s.push((x, seq![(t, v)])));
        assert(unique_keys(s2)) by {
            assert forall|i: int, j: int| 0 <= i < j < s2.len() implies #[trigger] s2[i].0
                != #[trigger] s2[j].0 by {
                if j == s.len() {
                    assert(s2[i].0 == s[i].0);
                    assert(has_key(s, s[i].0));
                }
            }
        };
        assert(s2[s.len() as int].0 == x);
        lemma_key_at_unique(s2, x, s.len() as int);
        assert(entry_set(table_of(s, x), t, v) =~= seq![(t, v)]);
        if a != x {
            if has_key(s, a) {
                let j = key_at(s, a);
                assert(s2[j] == s[j]);
                lemma_key_at_unique(s2, a, j);
            } else {
                if has_key(s2, a) {
                    let j = key_at(s2, a);
                    assert(0 <= j < s.len());
                    assert(s[j].0 == a);
                }
            }
        }
    }
}

/// Applying the same transfer to sheets that agree at an account keeps them
/// agreeing there.
proof fn lemma_apply_transfer_lookup_eq(u: Sheet, f: Sheet, tr: Transfer, a: Address)
    requires
        unique_keys(u),
        unique_keys(f),
        lookup_eq(u, f, a),
    ensures
        unique_keys(apply_transfer(u, tr)),
        unique_keys(apply_transfer(f, tr)),
        lookup_eq(apply_transfer(u, tr), apply_transfer(f, tr), a),
{
    let sv = as_signed_of(tr);
    lemma_half_lookup_eq(u, f, tr.from, tr.token, -sv, a);
    let u1 = if tr.from != Address::spec_zero() {
        sheet_add(u, tr.from, tr.token, -sv)
    } else {
        u
    };
    let f1 = if tr.from != Address::spec_zero() {
        sheet_add(f, tr.from, tr.token, -sv)
    } else {
        f
    };
    lemma_half_lookup_eq(u1, f1, tr.to, tr.token, sv, a);
}

spec fn as_signed_of(tr: Transfer) -> int {
    as_signed(tr.value)
}

/// One half of a transfer (one `sheet_add` at one endpoint, skipped for the
/// zero address) keeps per-account agreement.
proof fn lemma_half_lookup_eq(u: Sheet, f: Sheet, x: Address, t: Address, dv: int, a: Address)
    requires
        unique_keys(u),
        unique_keys(f),
        lookup_eq(u, f, a),
    ensures
        ({
            let u1 = if x != Address::spec_zero() {
                sheet_add(u, x, t, dv)
            } else {
                u
            };
            let f1 = if x != Address::spec_zero() {
                sheet_add(f, x, t, dv)
            } else {
                f
            };
            unique_keys(u1) && unique_keys(f1) && lookup_eq(u1, f1, a)
        }),
{
    if x != Address::spec_zero() {
        assert(table_of(u, x) == table_of(f, x) || a != x);
        lemma_sheet_set_lookup(u, x, t, sheet_delta(u, x, t) + dv, a);
        lemma_sheet_set_lookup(f, x, t, sheet_delta(f, x, t) + dv, a);
        if a == x {
            assert(table_of(u, x) == table_of(f, x));
            assert(sheet_delta(u, x, t) == sheet_delta(
                f,
                x,
                t,
            ));
        }
    }
}

/// A transfer touching neither endpoint leaves the account's table alone.
proof fn lemma_skip_transfer_lookup(u: Sheet, tr: Transfer, a: Address)
    requires
        unique_keys(u),
        a != tr.from,
        a != tr.to,
    ensures
        unique_keys(apply_transfer(u, tr)),
        has_key(apply_transfer(u, tr), a) == has_key(u, a),
        has_key(u, a) ==> val_of(apply_transfer(u, tr), a) == val_of(u, a),
{
    let sv = as_signed_of(tr);
    if tr.from != Address::spec_zero() {
        lemma_sheet_set_lookup(u, tr.from, tr.token, sheet_delta(u, tr.from, tr.token) - sv, a);
    }
    let u1 = if tr.from != Address::spec_zero() {
        sheet_add(u, tr.from, tr.token, -sv)
    } else {
        u
    };
    if tr.to != Address::spec_zero() {
        lemma_sheet_set_lookup(u1, tr.to, tr.token, sheet_delta(u1, tr.to, tr.token) + sv, a);
    }
}

/// Folding a transfer list into one sheet and its filtered list into another
/// keeps them agreeing at every account of the filter set.
#[verifier::rlimit(40)]
proof fn lemma_apply_filtered_lookup_eq(
    u: Sheet,
    f: Sheet,
    ts: Seq<Transfer>,
    s: Seq<Address>,
    a: Address,
)
    requires
        unique_keys(u),
        unique_keys(f),
        s.contains(a),
        lookup_eq(u, f, a),
    ensures
        unique_keys(apply_transfers(u, ts)),
        unique_keys(apply_transfers(f, ts.filter(relevant_to(s)))),
        lookup_eq(apply_transfers(u, ts), apply_transfers(f, ts.filter(relevant_to(s))), a),
    decreases ts.len(),
{
    reveal_with_fuel(Seq::filter, 3);
    let pred = relevant_to(s);
    if ts.len() == 0 {
        assert(ts.filter(pred) =~= Seq::<Transfer>::empty());
    } else {
        let t0 = ts[0];
        let rest = ts.subrange(1, ts.len() as int);
        assert(ts =~= seq![t0] + rest);
        Seq::filter_distributes_over_add(seq![t0], rest, pred);
        assert(seq![t0].drop_last() =~= Seq::<Transfer>::empty());
        assert(seq![t0].last() == t0);
        if pred(t0) {
            assert(seq![t0].filter(pred) =~= seq![t0]);
            assert(ts.filter(pred) == seq![t0] + rest.filter(pred));
            lemma_apply_transfer_lookup_eq(u, f, t0, a);
            lemma_apply_filtered_lookup_eq(
                apply_transfer(u, t0),
                apply_transfer(f, t0),
                rest,
                s,
                a,
            );
            assert((seq![t0] + rest.filter(pred)).subrange(
                1,
                (seq![t0] + rest.filter(pred)).len() as int,
            ) =~= rest.filter(pred));
        } else {
            assert(seq![t0].filter(pred) =~= Seq::<Transfer>::empty());
            assert(ts.filter(pred) =~= rest.filter(pred));
            assert(a != t0.from && a != t0.to);
            lemma_skip_transfer_lookup(u, t0, a);
            lemma_apply_filtered_lookup_eq(apply_transfer(u, t0), f, rest, s, a);
        }
    }
}

/// How `prune_sheet` reads back at an account.
proof fn lemma_prune_lookup(s: Sheet, a: Address)
    requires
        unique_keys(s),
    ensures
        has_key(prune_sheet(s), a) == (has_key(s, a) && prune_entries(
            table_of(s, a),
        ).len() != 0),
        has_key(prune_sheet(s), a) ==> val_of(prune_sheet(s), a)
            == prune_entries(table_of(s, a)),
    decreases s.len(),
{
    if s.len() == 0 {
        lemma_prune_sheet_empty();
        if has_key(s, a) {
            let j = key_at(s, a);
        }
        if has_key(prune_sheet(s), a) {
            let j = key_at(prune_sheet(s), a);
        }
    } else {
        let s1 = s.drop_last();
        let p = s.last();
        assert(unique_keys(s1)) by {
            assert(forall|i: int| 0 <= i < s1.len() ==> s1[i] == s[i]);
        };
        lemma_prune_lookup(s1, a);
        assert(s1.push(p) =~= s);
        lemma_prune_sheet_push(s1, p);
        assert(!has_key(s1, p.0)) by {
            if has_key(s1, p.0) {
                let j = key_at(s1, p.0);
                assert(s[j].0 == s[s.len() - 1].0);
            }
        };
        assert(!has_key(prune_sheet(s1), p.0)) by {
            if has_key(prune_sheet(s1), p.0) {
                lemma_prune_keys(s1, p.0);
            }
        };
        if a == p.0 {
            lemma_key_at_unique(s, a, s.len() - 1);
            assert(table_of(s, a) == p.1);
            if prune_entries(p.1).len() != 0 {
                let ps = prune_sheet(s1).push((p.0, prune_entries(p.1)));
                assert(prune_sheet(s) == ps);
                assert(ps[ps.len() - 1].0 == a);
                lemma_prune_unique_keys(s1);
                lemma_key_at_unique(ps, a, ps.len() - 1) ;
            } else {
                assert(prune_sheet(s) == prune_sheet(s1));
                assert(!has_key(prune_sheet(s1), a));
            }
        } else {
            assert(has_key(s, a) == has_key(s1, a)) by {
                if has_key(s, a) {
                    let j = key_at(s, a);
                    if j == s.len() - 1 {
                        assert(s[j].0 == p.0);
                    } else {
                        assert(s1[j].0 == a);
                    }
                }
                if has_key(s1, a) {
                    let j = key_at(s1, a);
                    assert(s[j].0 == a);
                }
            };
            if has_key(s1, a) {
                let j = key_at(s1, a);
                lemma_key_at_unique(s, a, j);
                assert(table_of(s, a) == table_of(s1, a));
            }
            if prune_entries(p.1).len() != 0 {
                let ps = prune_sheet(s1).push((p.0, prune_entries(p.1)));
                assert(prune_sheet(s) == ps);
                lemma_prune_unique_keys(s);
                assert(unique_keys(ps));
                if has_key(prune_sheet(s1), a) {
                    let j = key_at(prune_sheet(s1), a);
                    assert(ps[j].0 == a);
                    lemma_key_at_unique(ps, a, j);
                } else {
                    if has_key(ps, a) {
                        let j = key_at(ps, a);
                        assert(j == ps.len() - 1 || prune_sheet(s1)[j].0 == a);
                    }
                }
            } else {
                assert(prune_sheet(s) == prune_sheet(s1));
            }
        }
    }
}

/// Keys of the pruned sheet come from the sheet.
proof fn lemma_prune_keys(s: Sheet, k: Address)
    requires
        has_key(prune_sheet(s), k),
    ensures
        has_key(s, k),
{
    let f = |q: (Address, Seq<(Address, int)>)| (q.0, prune_entries(q.1));
    let pr = |q: (Address, Seq<(Address, int)>)| q.1.len() != 0;
    let m = s.map_values(f);
    assert(prune_sheet(s) == m.filter(pr));
    lemma_filter_keys(m, pr, k);
    let j = key_at(m, k);
    assert(m[j].0 == s[j].0);
}

/// Pruning keeps account keys unique.
proof fn lemma_prune_unique_keys(s: Sheet)
    requires
        unique_keys(s),
    ensures
        unique_keys(prune_sheet(s)),
{
    let f = |q: (Address, Seq<(Address, int)>)| (q.0, prune_entries(q.1));
    let pr = |q: (Address, Seq<(Address, int)>)| q.1.len() != 0;
    let m = s.map_values(f);
    assert(unique_keys(m)) by {
        assert forall|i: int, j: int| 0 <= i < j < m.len() implies #[trigger] m[i].0
            != #[trigger] m[j].0 by {
            assert(s[i].0 != s[j].0);
        }
    };
    lemma_filter_unique(m, pr);
}

/// Filter correctness: for any filter set, the unfiltered sheet restricted
/// to the set's accounts equals the filtered sheet restricted to them: each
/// such account is present in one exactly when present in the other, with
/// the same token deltas.
pub proof fn lemma_filter_correctness(
    q: Seq<FrameView>,
    chain_id: u64,
    weth: Address,
    s: Seq<Address>,
    a: Address,
)
    requires
        s.contains(a),
    ensures
        ({
            let empty = Seq::<(Address, Seq<(Address, int)>)>::empty();
            let su = prune_sheet(apply_transfers(empty, walk_transfers(q, chain_id, weth, None)));
            let sf = prune_sheet(
                apply_transfers(empty, walk_transfers(q, chain_id, weth, Some(s))),
            );
            lookup_eq(su, sf, a)
        }),
{
    let empty = Seq::<(Address, Seq<(Address, int)>)>::empty();
    let ts = walk_transfers(q, chain_id, weth, None);
    lemma_walk_filter(q, chain_id, weth, s);
    lemma_apply_filtered_lookup_eq(empty, empty, ts, s, a);
    let u = apply_transfers(empty, ts);
    let f = apply_transfers(empty, ts.filter(relevant_to(s)));
    lemma_prune_lookup(u, a);
    lemma_prune_lookup(f, a);
}

} // verus!

verus! {

// ---------------------------------------------------------------------------
// Reverted isolation
// ---------------------------------------------------------------------------

/// The frame tree with one more child inserted at `pos` under the frame the
/// path leads to.
pub open spec fn insert_frame(f: FrameView, path: Seq<int>, pos: int, r: FrameView) -> FrameView
    decreases path.len(),
{
    if path.len() == 0 {
        FrameView {
            kind: f.kind,
            from: f.from,
            to: f.to,
            value: f.value,
            reverted: f.reverted,
            logs: f.logs,
            calls: f.calls.insert(pos, r),
        }
    } else {
        FrameView {
            kind: f.kind,
            from: f.from,
            to: f.to,
            value: f.value,
            reverted: f.reverted,
            logs: f.logs,
            calls: f.calls.update(
                path[0],
                insert_frame(f.calls[path[0]], path.subrange(1, path.len() as int), pos, r),
            ),
        }
    }
}

/// The path leads through child indices to a frame, and the position lies
/// within that frame's child list.
pub open spec fn valid_path(f: FrameView, path: Seq<int>, pos: int) -> bool
    decreases path.len(),
{
    if path.len() == 0 {
        0 <= pos <= f.calls.len()
    } else {
        0 <= path[0] < f.calls.len() && valid_path(
            f.calls[path[0]],
            path.subrange(1, path.len() as int),
            pos,
        )
    }
}

/// A reverted frame inserted anywhere in the queue leaves the walk alone.
proof fn lemma_walk_insert_reverted(
    q: Seq<FrameView>,
    i: int,
    r: FrameView,
    chain_id: u64,
    weth: Address,
    fl: Option<Seq<Address>>,
)
    requires
        r.reverted,
        0 <= i <= q.len(),
    ensures
        walk_transfers(q.insert(i, r), chain_id, weth, fl) == walk_transfers(
            q,
            chain_id,
            weth,
            fl,
        ),
        walk_ok(q.insert(i, r)) == walk_ok(q),
    decreases fvs_size(q),
{
    let q2 = q.insert(i, r);
    if i == 0 {
        assert(q2[0] == r);
        assert(q2.subrange(1, q2.len() as int) =~= q);
    } else {
        assert(q.len() > 0);
        assert(q2[0] == q[0]);
        let rest = q.subrange(1, q.len() as int);
        assert(q2.subrange(1, q2.len() as int) =~= rest.insert(i - 1, r));
        proof_fvs_head(q);
        if q[0].reverted {
            lemma_walk_insert_reverted(rest, i - 1, r, chain_id, weth, fl);
        } else {
            assert(rest.insert(i - 1, r) + q[0].calls =~= (rest + q[0].calls).insert(i - 1, r));
            lemma_fvs_size_concat(rest, q[0].calls);
            lemma_walk_insert_reverted(rest + q[0].calls, i - 1, r, chain_id, weth, fl);
        }
    }
}

/// A reverted frame inserted anywhere under any queue element leaves the
/// walk alone.
proof fn lemma_walk_insert_at(
    q: Seq<FrameView>,
    k: int,
    path: Seq<int>,
    pos: int,
    r: FrameView,
    chain_id: u64,
    weth: Address,
    fl: Option<Seq<Address>>,
)
    requires
        r.reverted,
        0 <= k < q.len(),
        valid_path(q[k], path, pos),
    ensures
        walk_transfers(
            q.update(k, insert_frame(q[k], path, pos, r)),
            chain_id,
            weth,
            fl,
        ) == walk_transfers(q, chain_id, weth, fl),
        walk_ok(q.update(k, insert_frame(q[k], path, pos, r))) == walk_ok(q),
    decreases fvs_size(q),
{
    let f2 = insert_frame(q[k], path, pos, r);
    let q2 = q.update(k, f2);
    let rest = q.subrange(1, q.len() as int);
    proof_fvs_head(q);
    assert(f2.reverted == q[k].reverted && f2.logs == q[k].logs && f2.kind == q[k].kind
        && f2.from == q[k].from && f2.to == q[k].to && f2.value == q[k].value);
    if k == 0 {
        assert(q2[0] == f2);
        assert(q2.subrange(1, q2.len() as int) =~= rest);
        if q[0].reverted {
        } else {
            assert(frame_emits(f2, chain_id, weth, fl) == frame_emits(q[0], chain_id, weth, fl));
            assert(logs_ok(f2.logs) == logs_ok(q[0].logs));
            lemma_fvs_size_concat(rest, q[0].calls);
            if path.len() == 0 {
                assert(f2.calls == q[0].calls.insert(pos, r));
                assert(rest + f2.calls =~= (rest + q[0].calls).insert(rest.len() + pos, r));
                lemma_walk_insert_reverted(
                    rest + q[0].calls,
                    rest.len() + pos,
                    r,
                    chain_id,
                    weth,
                    fl,
                );
            } else {
                let p0 = path[0];
                let deep = insert_frame(
                    q[0].calls[p0],
                    path.subrange(1, path.len() as int),
                    pos,
                    r,
                );
                assert(f2.calls == q[0].calls.update(p0, deep));
                assert((rest + q[0].calls)[rest.len() + p0] == q[0].calls[p0]);
                assert(rest + f2.calls =~= (rest + q[0].calls).update(rest.len() + p0, deep));
                lemma_walk_insert_at(
                    rest + q[0].calls,
                    rest.len() + p0,
                    path.subrange(1, path.len() as int),
                    pos,
                    r,
                    chain_id,
                    weth,
                    fl,
                );
            }
        }
    } else {
        assert(q2[0] == q[0]);
        assert(q2.subrange(1, q2.len() as int) =~= rest.update(k - 1, f2));
        assert(rest[k - 1] == q[k]);
        if q[0].reverted {
            lemma_walk_insert_at(rest, k - 1, path, pos, r, chain_id, weth, fl);
        } else {
            lemma_fvs_size_concat(rest, q[0].calls);
            assert((rest + q[0].calls)[k - 1] == q[k]);
            assert(rest.update(k - 1, f2) + q[0].calls =~= (rest + q[0].calls).update(k - 1, f2));
            lemma_walk_insert_at(rest + q[0].calls, k - 1, path, pos, r, chain_id, weth, fl);
        }
    }
}

/// Reverted isolation: an extra child frame marked reverted, inserted
/// anywhere in the call tree, changes neither the walk's transfers nor its
/// validity — so the sheet the transaction yields is unchanged.
pub proof fn lemma_reverted_isolation(
    f: FrameView,
    path: Seq<int>,
    pos: int,
    r: FrameView,
    chain_id: u64,
    weth: Address,
    fl: Option<Seq<Address>>,
)
    requires
        r.reverted,
        valid_path(f, path, pos),
    ensures
        walk_transfers(seq![insert_frame(f, path, pos, r)], chain_id, weth, fl) == walk_transfers(
            seq![f],
            chain_id,
            weth,
            fl,
        ),
        walk_ok(seq![insert_frame(f, path, pos, r)]) == walk_ok(seq![f]),
{
    assert(seq![f][0] == f);
    lemma_walk_insert_at(seq![f], 0, path, pos, r, chain_id, weth, fl);
    assert(seq![f].update(0, insert_frame(f, path, pos, r)) =~= seq![
        insert_frame(f, path, pos, r),
    ]);
}

} // verus!

verus! {

// ---------------------------------------------------------------------------
// Sheet restriction, airdrop classifier, fees, rewards
// ---------------------------------------------------------------------------

/// The sheet restricted to the given accounts, order kept.
pub open spec fn spec_restrict(s: Sheet, accounts: Seq<Address>) -> Sheet {
    s.filter(|p: (Address, Seq<(Address, int)>)| accounts.contains(p.0))
}

/// Copy of the sheet keeping only the given accounts.
pub fn clone_and_retain_accounts(bcs: &BalanceChanges, accounts: &Vec<Address>) -> (r:
    BalanceChanges)
    requires
        bcs.wf(),
    ensures
        r.wf(),
        r@ == spec_restrict(bcs@, accounts@),
{
    let ghost pred = |p: (Address, Seq<(Address, int)>)| accounts@.contains(p.0);
    let mut out = BalanceChanges::new();
    let n = bcs.len();
    let mut i: usize = 0;
    proof {
        reveal_with_fuel(Seq::filter, 2);
        assert(bcs@.subrange(0, 0) =~= Seq::<(Address, Seq<(Address, int)>)>::empty());
    }
    while i < n
        invariant
            n == bcs@.len(),
            i <= n,
            bcs.wf(),
            out.wf(),
            out@ == bcs@.subrange(0, i as int).filter(
                |p: (Address, Seq<(Address, int)>)| accounts@.contains(p.0),
            ),
        decreases n - i,
    {
        let a = bcs.account_at(i);
        proof {
            assert(bcs@.subrange(0, i + 1 as int) =~= bcs@.subrange(0, i as int).push(
                bcs@[i as int],
            ));
            crate::balance_changes::lemma_filter_push(
                bcs@.subrange(0, i as int),
                |p: (Address, Seq<(Address, int)>)| accounts@.contains(p.0),
                bcs@[i as int],
            );
        }
        if contains_addr(accounts, &a) {
            let tb = bcs.table_at(i).duplicate();
            proof {
                assert(!has_key(out@, a)) by {
                    if has_key(out@, a) {
                        lemma_filter_keys(
                            bcs@.subrange(0, i as int),
                            |p: (Address, Seq<(Address, int)>)| accounts@.contains(p.0),
                            a,
                        );
                        let j = key_at(bcs@.subrange(0, i as int), a);
                        assert(bcs@[j].0 == bcs@[i as int].0);
                    }
                };
                assert(unique_keys(bcs@[i as int].1));
                assert(tb@ == bcs@[i as int].1);
            }
            out.push_account(a, tb);
        }
        i = i + 1;
    }
    proof {
        assert(bcs@.subrange(0, n as int) =~= bcs@);
    }
    out
}

/// At least one entry somewhere on the sheet.
pub open spec fn sheet_has_entry(s: Sheet) -> bool {
    exists|i: int| 0 <= i < s.len() && (#[trigger] s[i].1).len() > 0
}

/// Every entry on the sheet references one and the same token.
pub open spec fn same_token(s: Sheet) -> bool {
    forall|i1: int, j1: int, i2: int, j2: int|
        0 <= i1 < s.len() && 0 <= j1 < s[i1].1.len() && 0 <= i2 < s.len() && 0 <= j2
            < s[i2].1.len() ==> (#[trigger] s[i1].1[j1]).0 == (#[trigger] s[i2].1[j2]).0
}

/// How many entries of one table are negative.
pub open spec fn neg_count_entries(es: Seq<(Address, int)>) -> int
    decreases es.len(),
{
    if es.len() == 0 {
        0
    } else {
        (if es[0].1 < 0 {
            1int
        } else {
            0int
        }) + neg_count_entries(es.subrange(1, es.len() as int))
    }
}

/// How many entries of the whole sheet are negative.
pub open spec fn sheet_neg_count(s: Sheet) -> int
    decreases s.len(),
{
    if s.len() == 0 {
        0
    } else {
        neg_count_entries(s[0].1) + sheet_neg_count(s.subrange(1, s.len() as int))
    }
}

/// The shitcoin-airdrop pattern: at least three accounts, a single token
/// across all entries, and exactly one negative delta — one sender spraying
/// a token to many recipients.
pub open spec fn spec_is_airdrop(s: Sheet) -> bool {
    &&& s.len() >= 3
    &&& sheet_has_entry(s)
    &&& same_token(s)
    &&& sheet_neg_count(s) == 1
}

proof fn lemma_neg_count_entries_nonneg(es: Seq<(Address, int)>)
    ensures
        neg_count_entries(es) >= 0,
    decreases es.len(),
{
    if es.len() > 0 {
        lemma_neg_count_entries_nonneg(es.subrange(1, es.len() as int));
    }
}

proof fn lemma_sheet_neg_count_nonneg(s: Sheet)
    ensures
        sheet_neg_count(s) >= 0,
    decreases s.len(),
{
    if s.len() > 0 {
        lemma_neg_count_entries_nonneg(s[0].1);
        lemma_sheet_neg_count_nonneg(s.subrange(1, s.len() as int));
    }
}

/// Whether the sheet matches the shitcoin-airdrop pattern.
pub fn is_shitcoin_airdrop(full: &BalanceChanges) -> (r: bool)
    requires
        full.wf(),
    ensures
        r == spec_is_airdrop(full@),
{
    let n = full.len();
    if n < 3 {
        return false;
    }
    // the token of the first entry, if any entry exists
    let mut found = false;
    let mut t0 = Address::zero();
    let mut i: usize = 0;
    while i < n
        invariant
            n == full@.len(),
            i <= n,
            full.wf(),
            !found ==> forall|k: int| 0 <= k < i ==> (#[trigger] full@[k].1).len() == 0,
            found ==> sheet_has_entry(full@),
            found ==> exists|k: int, j: int|
                0 <= k < full@.len() && 0 <= j < full@[k].1.len() && (#[trigger] full@[k].1[j]).0
                    == t0,
        decreases n - i,
    {
        if !found {
            let tb = full.table_at(i);
            if tb.len() > 0 {
                let e = tb.entry_at(0);
                t0 = e.0;
                found = true;
                proof {
                    assert(full@[i as int].1.len() > 0);
                    assert(full@[i as int].1[0].0 == t0);
                }
            }
        }
        i = i + 1;
    }
    if !found {
        proof {
            assert(!sheet_has_entry(full@));
        }
        return false;
    }
    // one pass: same token everywhere, and the count of negative entries
    let mut neg: usize = 0;
    let mut a: usize = 0;
    proof {
        assert(full@.subrange(0, n as int) =~= full@);
    }
    while a < n
        invariant
            n == full@.len(),
            a <= n,
            full.wf(),
            neg <= 1,
            sheet_neg_count(full@) == neg + sheet_neg_count(full@.subrange(a as int, n as int)),
            exists|k: int, j: int|
                0 <= k < full@.len() && 0 <= j < full@[k].1.len() && (#[trigger] full@[k].1[j]).0
                    == t0,
            forall|k: int, j: int|
                0 <= k < a && 0 <= j < full@[k].1.len() ==> (#[trigger] full@[k].1[j]).0 == t0,
        decreases n - a,
    {
        let tb = full.table_at(a);
        let m = tb.len();
        let mut j: usize = 0;
        let ghost sfx = full@.subrange(a as int, n as int);
        proof {
            assert(sfx[0] == full@[a as int]);
            assert(sfx.subrange(1, sfx.len() as int) =~= full@.subrange(a + 1 as int, n as int));
            assert(tb@.subrange(0, m as int) =~= tb@);
        }
        while j < m
            invariant
                n == full@.len(),
                0 <= a < n,
                m == full@[a as int].1.len(),
                j <= m,
                tb@ == full@[a as int].1,
                neg <= 1,
                sheet_neg_count(full@) == neg + neg_count_entries(
                    tb@.subrange(j as int, m as int),
                ) + sheet_neg_count(full@.subrange(a + 1 as int, n as int)),
                exists|k: int, j2: int|
                    0 <= k < full@.len() && 0 <= j2 < full@[k].1.len() && (#[trigger] full@[k].1[j2]).0
                        == t0,
                forall|k: int, j2: int|
                    0 <= k < a && 0 <= j2 < full@[k].1.len() ==> (#[trigger] full@[k].1[j2]).0
                        == t0,
                forall|j2: int| 0 <= j2 < j ==> (#[trigger] tb@[j2]).0 == t0,
            decreases m - j,
        {
            let e = tb.entry_at(j);
            proof {
                let esfx = tb@.subrange(j as int, m as int);
                assert(esfx[0] == tb@[j as int]);
                assert(esfx.subrange(1, esfx.len() as int) =~= tb@.subrange(
                    j + 1 as int,
                    m as int,
                ));
                lemma_neg_count_entries_nonneg(tb@.subrange(j + 1 as int, m as int));
                lemma_sheet_neg_count_nonneg(full@.subrange(a + 1 as int, n as int));
            }
            if e.0 != t0 {
                proof {
                    assert(full@[a as int].1[j as int].0 != t0);
                    let (wk, wj) = choose|k: int, j2: int|
                        0 <= k < full@.len() && 0 <= j2 < full@[k].1.len() && (#[trigger] full@[k].1[j2]).0
                            == t0;
                    assert(!same_token(full@));
                }
                return false;
            }
            if e.1.is_negative() {
                if neg >= 1 {
                    proof {
                        assert(sheet_neg_count(full@) >= 2);
                    }
                    return false;
                }
                neg = neg + 1;
            }
            j = j + 1;
        }
        proof {
            assert(tb@.subrange(m as int, m as int) =~= Seq::<(Address, int)>::empty());
        }
        a = a + 1;
    }
    proof {
        assert(full@.subrange(n as int, n as int) =~= Seq::<(Address, Seq<(Address, int)>)>::empty());
        if neg == 1 {
            assert(same_token(full@)) by {
                assert forall|i1: int, j1: int, i2: int, j2: int|
                    0 <= i1 < full@.len() && 0 <= j1 < full@[i1].1.len() && 0 <= i2 < full@.len()
                        && 0 <= j2 < full@[i2].1.len() implies (#[trigger] full@[i1].1[j1]).0 == (
                #[trigger] full@[i2].1[j2]).0 by {
                    assert(full@[i1].1[j1].0 == t0);
                    assert(full@[i2].1[j2].0 == t0);
                }
            };
        }
    }
    neg == 1
}

} // verus!

verus! {

// ---------------------------------------------------------------------------
// Fees, builder reward, validator bribe, merging
// ---------------------------------------------------------------------------

/// The parsed `l1Fee` extension of a receipt: `None` when missing or not a
/// hex number of at most 256 bits.
pub open spec fn spec_l1_fee(receipt: Receipt) -> Option<nat> {
    match receipt.l1_fee {
        Some(b) => crate::utils::spec_parse_hex(b@),
        None => None,
    }
}

/// The fee a transaction costs its sender: gas times price, plus, on
/// Optimism-family chains, the `l1Fee` extension; the unsigned total read
/// as two's complement. `Err(MalformedTrace)` when the extension is needed
/// and unreadable, `Err(ArithmeticOverflow)` when the total needs more than
/// 256 bits.
pub open spec fn spec_tx_fee(chain_id: u64, receipt: Receipt) -> Result<int, EngineError> {
    let base = receipt.gas_used * receipt.effective_gas_price;
    if crate::chain::optimism_chain(chain_id) {
        match spec_l1_fee(receipt) {
            None => Err(EngineError::MalformedTrace),
            Some(x) => if base + x >= crate::int256::pow256() {
                Err(EngineError::ArithmeticOverflow)
            } else {
                Ok(as_signed((base + x) as nat))
            },
        }
    } else {
        Ok(as_signed(base as nat))
    }
}

pub fn calculate_tx_fee(chain_id: u64, receipt: &Receipt) -> (r: Result<I256, EngineError>)
    ensures
        match r {
            Ok(v) => spec_tx_fee(chain_id, *receipt) == Ok::<int, EngineError>(i256_val(v)),
            Err(e) => spec_tx_fee(chain_id, *receipt) == Err::<int, EngineError>(e),
        },
{
    let mut extra = U256::zero();
    if crate::chain::lookup_is_optimism(chain_id) {
        let bytes = match &receipt.l1_fee {
            Some(b) => b,
            None => {
                return Err(EngineError::MalformedTrace);
            },
        };
        match crate::utils::parse_hex_u256(bytes) {
            Some(u) => {
                extra = u;
            },
            None => {
                return Err(EngineError::MalformedTrace);
            },
        }
    }
    let p = U256::from_u128(receipt.effective_gas_price);
    let (base, carry) = crate::int256::u256_mul_add_u64(&p, receipt.gas_used, 0);
    proof {
        assert(receipt.effective_gas_price * receipt.gas_used
            <= 0xffffffffffffffffffffffffffffffffu128 * 0xffffffffffffffffu64) by (nonlinear_arith)
            requires
                receipt.effective_gas_price <= 0xffffffffffffffffffffffffffffffffu128,
                receipt.gas_used <= 0xffffffffffffffffu64,
        ;
        assert(carry == 0) by {
            if carry != 0 {
                assert(u256_val(base) + carry * crate::int256::pow256() == u256_val(p)
                    * receipt.gas_used);
            }
        };
        assert(u256_val(base) == receipt.gas_used * receipt.effective_gas_price) by (
        nonlinear_arith)
            requires
                u256_val(base) == receipt.effective_gas_price * receipt.gas_used,
        ;
    }
    match crate::int256::u256_checked_add(&base, &extra) {
        Some(t) => Ok(I256::from_raw(t)),
        None => Err(EngineError::ArithmeticOverflow),
    }
}

/// Fee monotonicity off the Optimism family: with both factors positive,
/// raising `gas_used` or `effective_gas_price` strictly raises the fee.
/// (With a zero factor the fee stays zero, so those inputs are left out.)
pub proof fn lemma_fee_monotonic(chain_id: u64, r1: Receipt, r2: Receipt)
    requires
        !crate::chain::optimism_chain(chain_id),
        r1.gas_used >= 1,
        r1.effective_gas_price >= 1,
        r1.gas_used <= r2.gas_used,
        r1.effective_gas_price <= r2.effective_gas_price,
        r1.gas_used < r2.gas_used || r1.effective_gas_price < r2.effective_gas_price,
    ensures
        spec_tx_fee(chain_id, r1) matches Ok(f1) && spec_tx_fee(chain_id, r2) matches Ok(f2) && f1
            < f2,
{
    let b1 = r1.gas_used * r1.effective_gas_price;
    let b2 = r2.gas_used * r2.effective_gas_price;
    assert(0 < b1 < b2 && b2 <= 0xffffffffffffffffu64 * 0xffffffffffffffffffffffffffffffffu128)
        by (nonlinear_arith)
        requires
            r1.gas_used >= 1,
            r1.effective_gas_price >= 1,
            r1.gas_used <= r2.gas_used,
            r1.effective_gas_price <= r2.effective_gas_price,
            r1.gas_used < r2.gas_used || r1.effective_gas_price < r2.effective_gas_price,
            r2.gas_used <= 0xffffffffffffffffu64,
            r2.effective_gas_price <= 0xffffffffffffffffffffffffffffffffu128,
            b1 == r1.gas_used * r1.effective_gas_price,
            b2 == r2.gas_used * r2.effective_gas_price,
    ;
    assert(as_signed(b1 as nat) == b1);
    assert(as_signed(b2 as nat) == b2);
}

/// The priority fees of the block: the sum over all transactions of
/// `(effective_gas_price - base_fee) * gas_used`.
pub open spec fn spec_builder_reward(rs: Seq<Receipt>, base_fee: u128) -> int
    decreases rs.len(),
{
    if rs.len() == 0 {
        0
    } else {
        (rs[0].effective_gas_price - base_fee) * rs[0].gas_used + spec_builder_reward(
            rs.subrange(1, rs.len() as int),
            base_fee,
        )
    }
}

pub fn calculate_builder_reward(base_fee: u128, receipts: &Vec<Receipt>) -> (r: U256)
    requires
        forall|i: int|
            0 <= i < receipts@.len() ==> (#[trigger] receipts@[i]).effective_gas_price
                >= base_fee,
    ensures
        u256_val(r) == spec_builder_reward(receipts@, base_fee),
{
    let n = receipts.len();
    let mut acc = U256::zero();
    let mut i: usize = 0;
    proof {
        assert(receipts@.subrange(0, n as int) =~= receipts@);
    }
    while i < n
        invariant
            n == receipts@.len(),
            i <= n,
            forall|k: int|
                0 <= k < receipts@.len() ==> (#[trigger] receipts@[k]).effective_gas_price
                    >= base_fee,
            spec_builder_reward(receipts@, base_fee) == u256_val(acc) + spec_builder_reward(
                receipts@.subrange(i as int, n as int),
                base_fee,
            ),
            u256_val(acc) <= i * crate::int256::pow192(),
        decreases n - i,
    {
        let ghost sfx = receipts@.subrange(i as int, n as int);
        proof {
            assert(sfx[0] == receipts@[i as int]);
            assert(sfx.subrange(1, sfx.len() as int) =~= receipts@.subrange(
                i + 1 as int,
                n as int,
            ));
        }
        let price = receipts[i].effective_gas_price;
        let gas = receipts[i].gas_used;
        let diff: u128 = price - base_fee;
        let d = U256::from_u128(diff);
        let (term, tcarry) = crate::int256::u256_mul_add_u64(&d, gas, 0);
        proof {
            assert(diff * gas <= 0xffffffffffffffffffffffffffffffffu128 * 0xffffffffffffffffu64
                && diff * gas < crate::int256::pow192()) by (nonlinear_arith)
                requires
                    diff <= 0xffffffffffffffffffffffffffffffffu128,
                    gas <= 0xffffffffffffffffu64,
            ;
            assert(tcarry == 0) by {
                if tcarry != 0 {
                    assert(u256_val(term) + tcarry * crate::int256::pow256() == u256_val(d) * gas);
                }
            };
            assert(u256_val(term) == (price - base_fee) * gas) by (nonlinear_arith)
                requires
                    u256_val(term) == diff * gas,
                    diff == price - base_fee,
            ;
            assert((i + 1) * crate::int256::pow192() == i * crate::int256::pow192()
                + crate::int256::pow192());
            assert(i + 1 <= 0x1_0000_0000_0000_0000int);
            assert((i + 1) * crate::int256::pow192() <= 0x1_0000_0000_0000_0000int
                * crate::int256::pow192()) by (nonlinear_arith)
                requires
                    i + 1 <= 0x1_0000_0000_0000_0000int,
            ;
        }
        let (next, carry) = crate::int256::u256_add_carry(&acc, &term);
        proof {
            assert(!carry) by {
                if carry {
                    assert(u256_val(next) + crate::int256::pow256() == u256_val(acc) + u256_val(
                        term,
                    ));
                }
            };
        }
        acc = next;
        i = i + 1;
    }
    proof {
        assert(receipts@.subrange(n as int, n as int) =~= Seq::<Receipt>::empty());
    }
    acc
}

/// The largest positive native-token delta on a sheet: the conventional
/// validator tip of the block's last transaction.
pub open spec fn spec_validator_bribe(s: Sheet) -> int
    decreases s.len(),
{
    if s.len() == 0 {
        0
    } else {
        let v = crate::balance_changes::delta_of(s[0].1, Address::spec_zero());
        let m = spec_validator_bribe(s.subrange(1, s.len() as int));
        if v > 0 && v > m {
            v
        } else {
            m
        }
    }
}

pub fn find_validator_bribe(full: &BalanceChanges) -> (r: U256)
    requires
        full.wf(),
    ensures
        u256_val(r) == spec_validator_bribe(full@),
{
    let n = full.len();
    let mut best = U256::zero();
    let mut i: usize = 0;
    let zero_addr = Address::zero();
    proof {
        assert(full@.subrange(0, n as int) =~= full@);
        lemma_bribe_nonneg(full@.subrange(0, n as int));
    }
    while i < n
        invariant
            n == full@.len(),
            i <= n,
            full.wf(),
            zero_addr == Address::spec_zero(),
            ({
                let rest = spec_validator_bribe(full@.subrange(i as int, n as int));
                spec_validator_bribe(full@) == (if rest > u256_val(best) {
                    rest
                } else {
                    u256_val(best) as int
                })
            }),
        decreases n - i,
    {
        let ghost sfx = full@.subrange(i as int, n as int);
        proof {
            assert(sfx[0] == full@[i as int]);
            assert(sfx.subrange(1, sfx.len() as int) =~= full@.subrange(i + 1 as int, n as int));
            lemma_bribe_nonneg(full@.subrange(i + 1 as int, n as int));
            assert(unique_keys(full@[i as int].1));
        }
        let tb = full.table_at(i);
        match tb.get(&zero_addr) {
            Some(v) => {
                if v.is_positive() {
                    let raw = v.into_raw();
                    proof {
                        assert(u256_val(raw) == i256_val(v));
                    }
                    if best.lt(&raw) {
                        best = raw;
                    }
                }
            },
            None => {},
        }
        i = i + 1;
    }
    proof {
        assert(full@.subrange(n as int, n as int) =~= Seq::<(Address, Seq<(Address, int)>)>::empty());
    }
    best
}

proof fn lemma_bribe_nonneg(s: Sheet)
    ensures
        spec_validator_bribe(s) >= 0,
    decreases s.len(),
{
    if s.len() > 0 {
        lemma_bribe_nonneg(s.subrange(1, s.len() as int));
    }
}

} // verus!

verus! {

// ---------------------------------------------------------------------------
// Merging a wallet's accounts
// ---------------------------------------------------------------------------

/// Fold the tables of the listed accounts, first occurrence of each address
/// only, into one table.
pub open spec fn merge_rec(
    sheet: Sheet,
    done: Seq<Address>,
    todo: Seq<Address>,
    acc: Seq<(Address, int)>,
) -> Seq<(Address, int)>
    decreases todo.len(),
{
    if todo.len() == 0 {
        acc
    } else {
        let a = todo[0];
        let acc2 = if !done.contains(a) && has_key(sheet, a) {
            crate::balance_changes::extend_entries(acc, val_of(sheet, a))
        } else {
            acc
        };
        merge_rec(sheet, done.push(a), todo.subrange(1, todo.len() as int), acc2)
    }
}

/// Every fold step stays inside the 256-bit range.
pub open spec fn merge_fits(
    sheet: Sheet,
    done: Seq<Address>,
    todo: Seq<Address>,
    acc: Seq<(Address, int)>,
) -> bool
    decreases todo.len(),
{
    if todo.len() == 0 {
        true
    } else {
        let a = todo[0];
        if !done.contains(a) && has_key(sheet, a) {
            crate::balance_changes::extend_fits(acc, val_of(sheet, a)) && merge_fits(
                sheet,
                done.push(a),
                todo.subrange(1, todo.len() as int),
                crate::balance_changes::extend_entries(acc, val_of(sheet, a)),
            )
        } else {
            merge_fits(sheet, done.push(a), todo.subrange(1, todo.len() as int), acc)
        }
    }
}

/// The merged delta of the listed accounts over the sheet, zeros pruned.
pub open spec fn spec_merged(sheet: Sheet, addrs: Seq<Address>) -> Seq<(Address, int)> {
    prune_entries(
        merge_rec(sheet, Seq::empty(), addrs, Seq::empty()),
    )
}

fn addr_in_prefix(v: &Vec<Address>, upto: usize, a: &Address) -> (r: bool)
    requires
        upto <= v@.len(),
    ensures
        r == v@.subrange(0, upto as int).contains(*a),
{
    let mut i: usize = 0;
    while i < upto
        invariant
            upto <= v@.len(),
            i <= upto,
            forall|j: int| 0 <= j < i ==> v@[j] != *a,
        decreases upto - i,
    {
        if v[i] == *a {
            assert(v@.subrange(0, upto as int)[i as int] == *a);
            return true;
        }
        i = i + 1;
    }
    proof {
        if v@.subrange(0, upto as int).contains(*a) {
            let j = choose|j: int|
                0 <= j < upto && v@.subrange(0, upto as int)[j] == *a;
            assert(v@[j] == *a);
        }
    }
    false
}

/// Fold the listed accounts' tables from the sheet into one table, each
/// address once, and prune zeros. `Err` exactly when a fold step leaves the
/// 256-bit range.
pub fn merge_accounts(bcs: &BalanceChanges, addrs: &Vec<Address>) -> (r: Result<
    BalanceChange,
    EngineError,
>)
    requires
        bcs.wf(),
    ensures
        match r {
            Ok(bc) => merge_fits(bcs@, Seq::empty(), addrs@, Seq::empty()) && bc@ == spec_merged(
                bcs@,
                addrs@,
            ) && bc.wf(),
            Err(e) => e == EngineError::ArithmeticOverflow && !merge_fits(
                bcs@,
                Seq::empty(),
                addrs@,
                Seq::empty(),
            ),
        },
{
    let mut out = BalanceChange::new();
    let n = addrs.len();
    let mut i: usize = 0;
    proof {
        assert(addrs@.subrange(0, 0) =~= Seq::<Address>::empty());
        assert(addrs@.subrange(0, n as int) =~= addrs@);
    }
    while i < n
        invariant
            n == addrs@.len(),
            i <= n,
            bcs.wf(),
            out.wf(),
            merge_rec(bcs@, Seq::empty(), addrs@, Seq::empty()) == merge_rec(
                bcs@,
                addrs@.subrange(0, i as int),
                addrs@.subrange(i as int, n as int),
                out@,
            ),
            merge_fits(bcs@, Seq::empty(), addrs@, Seq::empty()) == merge_fits(
                bcs@,
                addrs@.subrange(0, i as int),
                addrs@.subrange(i as int, n as int),
                out@,
            ),
        decreases n - i,
    {
        let a = addrs[i];
        let ghost done = addrs@.subrange(0, i as int);
        let ghost todo = addrs@.subrange(i as int, n as int);
        proof {
            assert(todo[0] == addrs@[i as int]);
            assert(todo.subrange(1, todo.len() as int) =~= addrs@.subrange(i + 1 as int, n as int));
            assert(done.push(a) =~= addrs@.subrange(0, i + 1 as int));
        }
        let dup = addr_in_prefix(addrs, i, &a);
        if !dup {
            match bcs.get(&a) {
                Some(tb) => {
                    let tb2 = tb.duplicate();
                    let res = out.extend(&tb2);
                    match res {
                        Ok(()) => {},
                        Err(e) => {
                            return Err(e);
                        },
                    }
                },
                None => {},
            }
        }
        i = i + 1;
    }
    proof {
        assert(addrs@.subrange(n as int, n as int) =~= Seq::<Address>::empty());
    }
    out.retain_non_zero();
    Ok(out)
}

} // verus!

verus! {

// ---------------------------------------------------------------------------
// The per-block engine: model
// ---------------------------------------------------------------------------

/// One transaction as the engine sees it: its receipt, its full sheet, and
/// the sheet restricted to the universe of watched accounts.
pub type TxView = (Receipt, Sheet, Sheet);

/// The addresses of all wallets' involved sets, in order.
pub open spec fn spec_wallets_involved(ws: Seq<WalletWithContext>) -> Seq<Address>
    decreases ws.len(),
{
    if ws.len() == 0 {
        Seq::empty()
    } else {
        spec_wallets_involved(ws.drop_last()) + ws.last().spec_involved()
    }
}

/// Whether some wallet includes recipients and sent the transaction.
pub open spec fn spec_forwarded_by(ws: Seq<WalletWithContext>, from: Address) -> bool {
    exists|i: int|
        0 <= i < ws.len() && (#[trigger] ws[i]).include_recipient && ws[i].address == from
}

/// The recipients of successful transactions sent by a wallet that includes
/// its recipients, in order.
pub open spec fn spec_recipients(rs: Seq<Receipt>, ws: Seq<WalletWithContext>) -> Seq<Address>
    decreases rs.len(),
{
    if rs.len() == 0 {
        Seq::empty()
    } else {
        let front = spec_recipients(rs.drop_last(), ws);
        match rs.last().to {
            Some(to) => if rs.last().status && spec_forwarded_by(ws, rs.last().from) {
                front.push(to)
            } else {
                front
            },
            None => front,
        }
    }
}

/// The universe: every wallet's involved set plus the forwarded recipients.
pub open spec fn spec_universe(rs: Seq<Receipt>, ws: Seq<WalletWithContext>) -> Seq<Address> {
    spec_wallets_involved(ws) + spec_recipients(rs, ws)
}

/// What extracting one transaction's sheet yields: the contract of
/// `generate_pnl` without a filter.
pub open spec fn spec_full_result(chain_id: u64, receipt: Receipt, fv: FrameView) -> Result<
    Sheet,
    EngineError,
> {
    let empty = Seq::<(Address, Seq<(Address, int)>)>::empty();
    if !receipt.status {
        Ok(empty)
    } else {
        match wrapped_native_of(chain_id) {
            None => Err(EngineError::UnsupportedChain),
            Some(wb) => {
                let weth = spec_addr_of_bytes(wb);
                let ts = walk_transfers(seq![fv], chain_id, weth, None);
                if !walk_ok(seq![fv]) {
                    Err(EngineError::MalformedTrace)
                } else if !fits_all(empty, ts) {
                    Err(EngineError::ArithmeticOverflow)
                } else {
                    Ok(prune_sheet(apply_transfers(empty, ts)))
                }
            },
        }
    }
}

/// The pre-pass: each transaction's full and filtered sheet, or the first
/// transaction's error.
pub open spec fn spec_tx_views(
    chain_id: u64,
    vtxs: Seq<(Receipt, FrameView)>,
    universe: Seq<Address>,
) -> Result<Seq<TxView>, EngineError>
    decreases vtxs.len(),
{
    if vtxs.len() == 0 {
        Ok(Seq::empty())
    } else {
        match spec_full_result(chain_id, vtxs[0].0, vtxs[0].1) {
            Err(e) => Err(e),
            Ok(full) => match spec_tx_views(
                chain_id,
                vtxs.subrange(1, vtxs.len() as int),
                universe,
            ) {
                Err(e) => Err(e),
                Ok(rest) => Ok(
                    seq![(vtxs[0].0, full, spec_restrict(full, universe))] + rest,
                ),
            },
        }
    }
}

/// A transaction counts for a wallet: its filtered sheet touches the
/// wallet's involved set, and its full sheet is not a shitcoin airdrop.
pub open spec fn spec_tx_involved(t: TxView, w: WalletWithContext) -> bool {
    (exists|i: int|
        0 <= i < t.2.len() && w.spec_involved().contains((#[trigger] t.2[i]).0))
        && !spec_is_airdrop(t.1)
}

/// The addresses merged for one involved transaction: the involved set,
/// plus the recipient when the wallet itself sent the transaction.
pub open spec fn spec_merge_list(t: TxView, w: WalletWithContext) -> Seq<Address> {
    w.spec_involved() + (if t.0.from == w.address {
        match t.0.to {
            Some(to) => seq![to],
            None => Seq::<Address>::empty(),
        }
    } else {
        Seq::<Address>::empty()
    })
}

/// One wallet's pass over the transactions: collect the involved ones,
/// charge the fees of those the wallet sent, and merge the involved deltas.
pub open spec fn spec_wallet_fold(
    chain_id: u64,
    txs: Seq<TxView>,
    w: WalletWithContext,
    acc_txs: Seq<(u64, B256)>,
    acc_fee: int,
    acc_tc: Seq<(Address, int)>,
) -> Result<(Seq<(u64, B256)>, int, Seq<(Address, int)>), EngineError>
    decreases txs.len(),
{
    if txs.len() == 0 {
        Ok((acc_txs, acc_fee, acc_tc))
    } else {
        let t = txs[0];
        let rest = txs.subrange(1, txs.len() as int);
        if !spec_tx_involved(t, w) {
            spec_wallet_fold(chain_id, rest, w, acc_txs, acc_fee, acc_tc)
        } else {
            let fee_r: Result<int, EngineError> = if w.spec_involved().contains(t.0.from) {
                spec_tx_fee(chain_id, t.0)
            } else {
                Ok(0)
            };
            match fee_r {
                Err(e) => Err(e),
                Ok(fee) => if !in_i256(acc_fee + fee) {
                    Err(EngineError::ArithmeticOverflow)
                } else {
                    let addrs = spec_merge_list(t, w);
                    if !merge_fits(t.2, Seq::empty(), addrs, Seq::empty()) {
                        Err(EngineError::ArithmeticOverflow)
                    } else {
                        let merged = spec_merged(t.2, addrs);
                        if !crate::balance_changes::extend_fits(acc_tc, merged) {
                            Err(EngineError::ArithmeticOverflow)
                        } else {
                            spec_wallet_fold(
                                chain_id,
                                rest,
                                w,
                                acc_txs.push((t.0.transaction_index, t.0.transaction_hash)),
                                acc_fee + fee,
                                crate::balance_changes::extend_entries(acc_tc, merged),
                            )
                        }
                    }
                },
            }
        }
    }
}

/// A wallet's report over a block, as a mathematical value.
pub struct ReportView {
    pub txs: Seq<(u64, B256)>,
    pub pnl: int,
    pub builder_reward: int,
    pub validator_bribe: int,
    pub token_changes: Seq<(Address, int)>,
}

/// Whether the wallet collects this block's builder economics: mainnet
/// only, and only when the header's miner is the wallet's builder address.
pub open spec fn spec_is_builder(chain_id: u64, header: Header, w: WalletWithContext) -> bool {
    chain_id == 1 && (w.builder matches Some(b) && header.miner == b)
}

/// One wallet's report: `None` when the wallet neither touched the block
/// nor built it.
pub open spec fn spec_wallet_report(
    chain_id: u64,
    header: Header,
    txs: Seq<TxView>,
    w: WalletWithContext,
) -> Result<Option<ReportView>, EngineError> {
    let is_b = spec_is_builder(chain_id, header, w);
    let reward: int = if is_b {
        spec_builder_reward(
            txs.map_values(|t: TxView| t.0),
            (match header.base_fee_per_gas {
                Some(b) => b,
                None => 0,
            }) as u128,
        )
    } else {
        0
    };
    let bribe: int = if is_b && txs.len() > 0 {
        spec_validator_bribe(txs.last().1)
    } else {
        0
    };
    match spec_wallet_fold(chain_id, txs, w, Seq::empty(), 0, Seq::empty()) {
        Err(e) => Err(e),
        Ok((txl, total_fee, tc)) => {
            if txl.len() == 0 && reward == 0 {
                Ok(None)
            } else {
                let tc1 = prune_entries(tc);
                let wethv = match wrapped_native_of(chain_id) {
                    Some(b) => crate::balance_changes::delta_of(tc1, spec_addr_of_bytes(b)),
                    None => 0,
                };
                let s1 = match wrapped_native_of(chain_id) {
                    Some(b) => crate::balance_changes::remove_key(tc1, spec_addr_of_bytes(b)),
                    None => tc1,
                };
                let ethv = crate::balance_changes::delta_of(s1, Address::spec_zero());
                let s2 = crate::balance_changes::remove_key(s1, Address::spec_zero());
                let ether = ethv + wethv;
                if !in_i256(ether) {
                    Err(EngineError::ArithmeticOverflow)
                } else if !in_i256(ether - total_fee) {
                    Err(EngineError::ArithmeticOverflow)
                } else if !in_i256(ether - total_fee + as_signed(reward as nat)) {
                    Err(EngineError::ArithmeticOverflow)
                } else {
                    Ok(
                        Some(
                            ReportView {
                                txs: txl,
                                pnl: ether - total_fee + as_signed(reward as nat),
                                builder_reward: reward,
                                validator_bribe: bribe,
                                token_changes: s2,
                            },
                        ),
                    )
                }
            }
        },
    }
}

/// Every wallet's report, or the first error.
pub open spec fn spec_reports(
    chain_id: u64,
    header: Header,
    txs: Seq<TxView>,
    ws: Seq<WalletWithContext>,
) -> Result<Seq<Option<ReportView>>, EngineError>
    decreases ws.len(),
{
    if ws.len() == 0 {
        Ok(Seq::empty())
    } else {
        match spec_wallet_report(chain_id, header, txs, ws[0]) {
            Err(e) => Err(e),
            Ok(o) => match spec_reports(chain_id, header, txs, ws.subrange(1, ws.len() as int)) {
                Err(e) => Err(e),
                Ok(rest) => Ok(seq![o] + rest),
            },
        }
    }
}

/// The whole block: the pre-pass and then one report per wallet.
pub open spec fn spec_process_block(
    chain_id: u64,
    header: Header,
    vtxs: Seq<(Receipt, FrameView)>,
    ws: Seq<WalletWithContext>,
) -> Result<Seq<Option<ReportView>>, EngineError> {
    let universe = spec_universe(vtxs.map_values(|p: (Receipt, FrameView)| p.0), ws);
    match spec_tx_views(chain_id, vtxs, universe) {
        Err(e) => Err(e),
        Ok(views) => spec_reports(chain_id, header, views, ws),
    }
}

} // verus!

verus! {

// ---------------------------------------------------------------------------
// The per-block engine: execution
// ---------------------------------------------------------------------------

/// A transaction's position in its block, with its hash.
#[derive(Clone, Copy, PartialEq, Eq, Structural, Debug)]
pub struct TxAndPosition {
    pub index: u64,
    pub hash: B256,
}

/// One wallet's report over one block.
pub struct PnlReport {
    /// The wallet's transactions, strictly increasing by index.
    pub txs: Vec<TxAndPosition>,
    /// Realized profit and loss, in the native currency.
    pub pnl: I256,
    /// The block's priority fees, when the wallet built the block.
    pub builder_reward: U256,
    /// The conventional validator tip of the last transaction, when the
    /// wallet built the block.
    pub validator_bribe: U256,
    /// What remains after the native and wrapped-native deltas left.
    pub token_changes: BalanceChange,
}

pub open spec fn report_view(r: PnlReport) -> ReportView {
    ReportView {
        txs: r.txs@.map_values(|t: TxAndPosition| (t.index, t.hash)),
        pnl: i256_val(r.pnl),
        builder_reward: u256_val(r.builder_reward) as int,
        validator_bribe: u256_val(r.validator_bribe) as int,
        token_changes: r.token_changes@,
    }
}

pub open spec fn reports_view(rs: Seq<Option<PnlReport>>) -> Seq<Option<ReportView>> {
    rs.map_values(
        |o: Option<PnlReport>|
            match o {
                Some(r) => Some(report_view(r)),
                None => None,
            },
    )
}

/// Prefix already computed, rest still to come.
pub open spec fn prepend_views(a: Seq<TxView>, r: Result<Seq<TxView>, EngineError>) -> Result<
    Seq<TxView>,
    EngineError,
> {
    match r {
        Ok(v) => Ok(a + v),
        Err(e) => Err(e),
    }
}

pub open spec fn prepend_reports(
    a: Seq<Option<ReportView>>,
    r: Result<Seq<Option<ReportView>>, EngineError>,
) -> Result<Seq<Option<ReportView>>, EngineError> {
    match r {
        Ok(v) => Ok(a + v),
        Err(e) => Err(e),
    }
}

fn forwarded_by(wallets: &Vec<WalletWithContext>, from: &Address) -> (r: bool)
    ensures
        r == spec_forwarded_by(wallets@, *from),
{
    let n = wallets.len();
    let mut i: usize = 0;
    while i < n
        invariant
            n == wallets@.len(),
            i <= n,
            forall|j: int|
                0 <= j < i ==> !((#[trigger] wallets@[j]).include_recipient && wallets@[j].address
                    == *from),
        decreases n - i,
    {
        if wallets[i].include_recipient && wallets[i].address == *from {
            return true;
        }
        i = i + 1;
    }
    false
}

fn sheet_touches(filtered: &BalanceChanges, involved: &Vec<Address>) -> (r: bool)
    ensures
        r == exists|i: int|
            0 <= i < filtered@.len() && involved@.contains((#[trigger] filtered@[i]).0),
{
    let n = filtered.len();
    let mut i: usize = 0;
    while i < n
        invariant
            n == filtered@.len(),
            i <= n,
            forall|j: int| 0 <= j < i ==> !involved@.contains((#[trigger] filtered@[j]).0),
        decreases n - i,
    {
        let a = filtered.account_at(i);
        if contains_addr(involved, &a) {
            return true;
        }
        i = i + 1;
    }
    false
}

} // verus!

verus! {

/// The per-transaction views three parallel vectors hold.
pub open spec fn wallet_views(
    rs: Seq<Receipt>,
    fu: Seq<BalanceChanges>,
    fi: Seq<BalanceChanges>,
) -> Seq<TxView> {
    Seq::new(rs.len(), |k: int| (rs[k], fu[k]@, fi[k]@))
}

/// One wallet's report over the block's prepared transactions.
fn generate_wallet_report(
    chain_id: u64,
    header: &Header,
    receipts: &Vec<Receipt>,
    fulls: &Vec<BalanceChanges>,
    filtereds: &Vec<BalanceChanges>,
    wallet: &WalletWithContext,
) -> (r: Result<Option<PnlReport>, EngineError>)
    requires
        wallet.wf(),
        receipts@.len() == fulls@.len(),
        receipts@.len() == filtereds@.len(),
        forall|i: int| 0 <= i < fulls@.len() ==> (#[trigger] fulls@[i]).wf(),
        forall|i: int| 0 <= i < filtereds@.len() ==> (#[trigger] filtereds@[i]).wf(),
        forall|i: int, j: int|
            0 <= i < j < receipts@.len() ==> (#[trigger] receipts@[i]).transaction_index < (
            #[trigger] receipts@[j]).transaction_index,
        spec_is_builder(chain_id, *header, *wallet) ==> header.base_fee_per_gas is Some && forall|
            i: int,
        |
            0 <= i < receipts@.len() ==> (#[trigger] receipts@[i]).effective_gas_price
                >= header.base_fee_per_gas.unwrap(),
    ensures
        ({
            let views = wallet_views(receipts@, fulls@, filtereds@);
            match r {
                Ok(o) => spec_wallet_report(chain_id, *header, views, *wallet) == Ok::<
                    Option<ReportView>,
                    EngineError,
                >(
                    match o {
                        Some(rep) => Some(report_view(rep)),
                        None => None,
                    },
                ) && (match o {
                    Some(rep) => forall|a: int, b: int|
                        0 <= a < b < rep.txs@.len() ==> (#[trigger] rep.txs@[a]).index < (
                        #[trigger] rep.txs@[b]).index,
                    None => true,
                }),
                Err(e) => spec_wallet_report(chain_id, *header, views, *wallet) == Err::<
                    Option<ReportView>,
                    EngineError,
                >(e),
            }
        }),
{
    let ghost views = wallet_views(receipts@, fulls@, filtereds@);
    let n = receipts.len();
    let is_builder = chain_id == 1 && (match &wallet.builder {
        Some(b) => *b == header.miner,
        None => false,
    });
    proof {
        assert(is_builder == spec_is_builder(chain_id, *header, *wallet));
    }
    let mut builder_reward = U256::zero();
    let mut validator_bribe = U256::zero();
    if is_builder {
        let base_fee: u64 = match header.base_fee_per_gas {
            Some(b) => b,
            None => {
                proof {
                    assert(false);
                }
                0
            },
        };
        builder_reward = calculate_builder_reward(base_fee as u128, receipts);
        if n > 0 {
            validator_bribe = find_validator_bribe(&fulls[n - 1]);
            proof {
                assert(views.last().1 == fulls@[n - 1]@);
            }
        }
        proof {
            assert(views.map_values(|t: TxView| t.0) =~= receipts@);
        }
    }
    let ghost reward_spec: int = if spec_is_builder(chain_id, *header, *wallet) {
        spec_builder_reward(
            views.map_values(|t: TxView| t.0),
            (match header.base_fee_per_gas {
                Some(b) => b
                ,
                None => 0,
            }) as u128,
        )
    } else {
        0
    };
    let ghost bribe_spec: int = if spec_is_builder(chain_id, *header, *wallet) && views.len() > 0 {
        spec_validator_bribe(views.last().1)
    } else {
        0
    };
    proof {
        assert(u256_val(builder_reward) == reward_spec);
        assert(u256_val(validator_bribe) == bribe_spec);
    }
    let mut txs: Vec<TxAndPosition> = Vec::new();
    let mut total_fee = I256::zero();
    let mut token_changes = BalanceChange::new();
    let mut ti: usize = 0;
    proof {
        assert(views.subrange(0, n as int) =~= views);
        assert(txs@.map_values(|t: TxAndPosition| (t.index, t.hash)) =~= Seq::<(u64, B256)>::empty());
    }
    while ti < n
        invariant
            n == receipts@.len(),
            ti <= n,
            wallet.wf(),
            receipts@.len() == fulls@.len(),
            receipts@.len() == filtereds@.len(),
            forall|i: int| 0 <= i < fulls@.len() ==> (#[trigger] fulls@[i]).wf(),
            forall|i: int| 0 <= i < filtereds@.len() ==> (#[trigger] filtereds@[i]).wf(),
            forall|i: int, j: int|
                0 <= i < j < receipts@.len() ==> (#[trigger] receipts@[i]).transaction_index < (
                #[trigger] receipts@[j]).transaction_index,
            views == wallet_views(receipts@, fulls@, filtereds@),
            token_changes.wf(),
            spec_wallet_fold(chain_id, views, *wallet, Seq::empty(), 0, Seq::empty())
                == spec_wallet_fold(
                chain_id,
                views.subrange(ti as int, n as int),
                *wallet,
                txs@.map_values(|t: TxAndPosition| (t.index, t.hash)),
                i256_val(total_fee),
                token_changes@,
            ),
            forall|a: int, b: int|
                0 <= a < b < txs@.len() ==> (#[trigger] txs@[a]).index < (#[trigger] txs@[b]).index,
            txs@.len() > 0 ==> exists|k: int|
                0 <= k < ti && txs@[txs@.len() - 1].index == (
                #[trigger] receipts@[k]).transaction_index,
        decreases n - ti,
    {
        let ghost sfx = views.subrange(ti as int, n as int);
        proof {
            assert(sfx[0] == views[ti as int]);
            assert(sfx.subrange(1, sfx.len() as int) =~= views.subrange(ti + 1 as int, n as int));
            assert(views[ti as int] == (receipts@[ti as int], fulls@[ti as int]@, filtereds@[ti as int]@));
        }
        let involved = sheet_touches(&filtereds[ti], wallet.involved_wallets());
        let airdrop = is_shitcoin_airdrop(&fulls[ti]);
        proof {
            assert((involved && !airdrop) == spec_tx_involved(views[ti as int], *wallet));
        }
        if involved && !airdrop {
            let mut fee = I256::zero();
            if contains_addr(wallet.involved_wallets(), &receipts[ti].from) {
                match calculate_tx_fee(chain_id, &receipts[ti]) {
                    Ok(f) => {
                        fee = f;
                    },
                    Err(e) => {
                        return Err(e);
                    },
                }
            }
            let new_total = match i256_checked_add(&total_fee, &fee) {
                Some(t) => t,
                None => {
                    return Err(EngineError::ArithmeticOverflow);
                },
            };
            let mut addrs: Vec<Address> = Vec::new();
            let inv = wallet.involved_wallets();
            let m = inv.len();
            let mut k: usize = 0;
            while k < m
                invariant
                    m == inv@.len(),
                    k <= m,
                    addrs@ == inv@.subrange(0, k as int),
                decreases m - k,
            {
                addrs.push(inv[k]);
                proof {
                    assert(inv@.subrange(0, k + 1 as int) =~= inv@.subrange(0, k as int).push(
                        inv@[k as int],
                    ));
                }
                k = k + 1;
            }
            proof {
                assert(inv@.subrange(0, m as int) =~= inv@);
            }
            if receipts[ti].from == wallet.address {
                match receipts[ti].to {
                    Some(t) => {
                        addrs.push(t);
                    },
                    None => {},
                }
            }
            proof {
                assert(addrs@ =~= spec_merge_list(views[ti as int], *wallet));
            }
            let merged = match merge_accounts(&filtereds[ti], &addrs) {
                Ok(mg) => mg,
                Err(e) => {
                    return Err(e);
                },
            };
            match token_changes.extend(&merged) {
                Ok(()) => {},
                Err(e) => {
                    return Err(e);
                },
            }
            total_fee = new_total;
            let ghost old_txs = txs@;
            txs.push(
                TxAndPosition {
                    index: receipts[ti].transaction_index,
                    hash: receipts[ti].transaction_hash,
                },
            );
            proof {
                assert(txs@.map_values(|t: TxAndPosition| (t.index, t.hash)) =~= old_txs.map_values(
                    |t: TxAndPosition| (t.index, t.hash),
                ).push((receipts@[ti as int].transaction_index, receipts@[ti as int].transaction_hash)));
                assert forall|a: int, b: int| 0 <= a < b < txs@.len() implies (
                #[trigger] txs@[a]).index < (#[trigger] txs@[b]).index by {
                    if b == txs@.len() - 1 {
                        if old_txs.len() > 0 {
                            let kk = choose|kk: int|
                                0 <= kk < ti && old_txs[old_txs.len() - 1].index == (
                                #[trigger] receipts@[kk]).transaction_index;
                            assert(receipts@[kk].transaction_index
                                < receipts@[ti as int].transaction_index);
                            assert(txs@[a].index <= old_txs[old_txs.len() - 1].index);
                        }
                    }
                }
            }
        }
        ti = ti + 1;
    }
    proof {
        assert(views.subrange(n as int, n as int) =~= Seq::<TxView>::empty());
        crate::int256::lemma_i256_val_bound(total_fee);
    }
    if txs.is_empty() && builder_reward.is_zero() {
        return Ok(None);
    }
    token_changes.retain_non_zero();
    let ether = match token_changes.extract_ether(chain_id) {
        Ok(v) => v,
        Err(e) => {
            return Err(e);
        },
    };
    let p1 = match i256_checked_sub(&ether, &total_fee) {
        Some(x) => x,
        None => {
            return Err(EngineError::ArithmeticOverflow);
        },
    };
    let pnl = match i256_checked_add(&p1, &I256::from_raw(builder_reward)) {
        Some(x) => x,
        None => {
            return Err(EngineError::ArithmeticOverflow);
        },
    };
    Ok(
        Some(
            PnlReport {
                txs,
                pnl,
                builder_reward,
                validator_bribe,
                token_changes,
            },
        ),
    )
}

} // verus!

verus! {

/// Process one block: extract each transaction's sheet, restrict it to the
/// watched universe, and emit one optional report per wallet. `Err` carries
/// the first failure: an unsupported chain, a malformed trace or receipt
/// extension, or a 256-bit overflow.
pub fn process_block(
    chain_id: u64,
    header: &Header,
    receipt_and_traces: Vec<(Receipt, CallFrame)>,
    wallets: &Vec<WalletWithContext>,
) -> (r: Result<Vec<Option<PnlReport>>, EngineError>)
    requires
        forall|i: int| 0 <= i < wallets@.len() ==> (#[trigger] wallets@[i]).wf(),
        forall|i: int, j: int|
            0 <= i < j < receipt_and_traces@.len() ==> (
            #[trigger] receipt_and_traces@[i]).0.transaction_index < (
            #[trigger] receipt_and_traces@[j]).0.transaction_index,
        (exists|k: int|
            0 <= k < wallets@.len() && spec_is_builder(chain_id, *header, #[trigger] wallets@[k]))
            ==> (header.base_fee_per_gas is Some && forall|i: int|
            0 <= i < receipt_and_traces@.len() ==> (
            #[trigger] receipt_and_traces@[i]).0.effective_gas_price
                >= header.base_fee_per_gas.unwrap()),
    ensures
        ({
            let vtxs = receipt_and_traces@.map_values(|p: (Receipt, CallFrame)| (p.0, frame_view(p.1)));
            match r {
                Ok(reports) => spec_process_block(chain_id, *header, vtxs, wallets@) == Ok::<
                    Seq<Option<ReportView>>,
                    EngineError,
                >(reports_view(reports@)) && (forall|k: int|
                    0 <= k < reports@.len() ==> match #[trigger] reports@[k] {
                        Some(rep) => forall|a: int, b: int|
                            0 <= a < b < rep.txs@.len() ==> (#[trigger] rep.txs@[a]).index < (
                            #[trigger] rep.txs@[b]).index,
                        None => true,
                    }),
                Err(e) => spec_process_block(chain_id, *header, vtxs, wallets@) == Err::<
                    Seq<Option<ReportView>>,
                    EngineError,
                >(e),
            }
        }),
{
    let ghost vtxs = receipt_and_traces@.map_values(|p: (Receipt, CallFrame)| (p.0, frame_view(p.1)));
    let ghost rseq = vtxs.map_values(|p: (Receipt, FrameView)| p.0);
    let nt = receipt_and_traces.len();
    let nw = wallets.len();

    // the universe: every wallet's involved set, then forwarded recipients
    let mut universe: Vec<Address> = Vec::new();
    let mut wi: usize = 0;
    proof {
        assert(wallets@.subrange(0, 0) =~= Seq::<WalletWithContext>::empty());
        assert(universe@ =~= spec_wallets_involved(wallets@.subrange(0, 0)));
    }
    while wi < nw
        invariant
            nw == wallets@.len(),
            wi <= nw,
            universe@ == spec_wallets_involved(wallets@.subrange(0, wi as int)),
        decreases nw - wi,
    {
        let inv = wallets[wi].involved_wallets();
        let m = inv.len();
        let mut k: usize = 0;
        let ghost pre = universe@;
        while k < m
            invariant
                m == inv@.len(),
                k <= m,
                universe@ == pre + inv@.subrange(0, k as int),
            decreases m - k,
        {
            universe.push(inv[k]);
            proof {
                assert(pre + inv@.subrange(0, k + 1 as int) =~= (pre + inv@.subrange(
                    0,
                    k as int,
                )).push(inv@[k as int]));
            }
            k = k + 1;
        }
        proof {
            assert(inv@.subrange(0, m as int) =~= inv@);
            assert(wallets@.subrange(0, wi + 1 as int).drop_last() =~= wallets@.subrange(
                0,
                wi as int,
            ));
            assert(wallets@.subrange(0, wi + 1 as int).last() == wallets@[wi as int]);
            assert(universe@ == spec_wallets_involved(wallets@.subrange(0, wi + 1 as int)));
        }
        wi = wi + 1;
    }
    proof {
        assert(wallets@.subrange(0, nw as int) =~= wallets@);
        assert(rseq.subrange(0, 0) =~= Seq::<Receipt>::empty());
        assert(universe@ =~= spec_wallets_involved(wallets@) + spec_recipients(
            rseq.subrange(0, 0),
            wallets@,
        ));
    }
    let mut ri: usize = 0;
    while ri < nt
        invariant
            nt == receipt_and_traces@.len(),
            ri <= nt,
            nw == wallets@.len(),
            rseq == vtxs.map_values(|p: (Receipt, FrameView)| p.0),
            vtxs == receipt_and_traces@.map_values(
                |p: (Receipt, CallFrame)| (p.0, frame_view(p.1)),
            ),
            universe@ == spec_wallets_involved(wallets@) + spec_recipients(
                rseq.subrange(0, ri as int),
                wallets@,
            ),
        decreases nt - ri,
    {
        proof {
            assert(rseq[ri as int] == receipt_and_traces@[ri as int].0);
            assert(rseq.subrange(0, ri + 1 as int).drop_last() =~= rseq.subrange(0, ri as int));
            assert(rseq.subrange(0, ri + 1 as int).last() == rseq[ri as int]);
        }
        let rc_status = receipt_and_traces[ri].0.status;
        let rc_from = receipt_and_traces[ri].0.from;
        let rc_to = receipt_and_traces[ri].0.to;
        match rc_to {
            Some(to) => {
                if rc_status && forwarded_by(wallets, &rc_from) {
                    let ghost pre = universe@;
                    universe.push(to);
                    proof {
                        assert(universe@ =~= pre.push(to));
                        assert(universe@ =~= spec_wallets_involved(wallets@) + spec_recipients(
                            rseq.subrange(0, ri + 1 as int),
                            wallets@,
                        ));
                    }
                }
            },
            None => {},
        }
        ri = ri + 1;
    }
    proof {
        assert(rseq.subrange(0, nt as int) =~= rseq);
        assert(universe@ == spec_universe(rseq, wallets@));
    }

    // pre-pass: each transaction's full and filtered sheet
    let mut rt = receipt_and_traces;
    let mut receipts: Vec<Receipt> = Vec::new();
    let mut fulls: Vec<BalanceChanges> = Vec::new();
    let mut filtereds: Vec<BalanceChanges> = Vec::new();
    proof {
        assert(wallet_views(receipts@, fulls@, filtereds@) =~= Seq::<TxView>::empty());
        assert(rt@.map_values(|p: (Receipt, CallFrame)| (p.0, frame_view(p.1))) =~= vtxs.subrange(
            0,
            nt as int,
        ));
        assert(vtxs.subrange(0, nt as int) =~= vtxs);
    }
    while !rt.is_empty()
        invariant
            nt == vtxs.len(),
            vtxs == receipt_and_traces@.map_values(
                |p: (Receipt, CallFrame)| (p.0, frame_view(p.1)),
            ),
            nw == wallets@.len(),
            receipts@.len() + rt@.len() == nt,
            receipts@.len() == fulls@.len(),
            receipts@.len() == filtereds@.len(),
            rt@.map_values(|p: (Receipt, CallFrame)| (p.0, frame_view(p.1))) =~= vtxs.subrange(
                receipts@.len() as int,
                nt as int,
            ),
            forall|i: int| 0 <= i < fulls@.len() ==> (#[trigger] fulls@[i]).wf(),
            forall|i: int| 0 <= i < filtereds@.len() ==> (#[trigger] filtereds@[i]).wf(),
            forall|i: int| 0 <= i < receipts@.len() ==> receipts@[i] == vtxs[i].0,
            spec_tx_views(chain_id, vtxs, universe@) == prepend_views(
                wallet_views(receipts@, fulls@, filtereds@),
                spec_tx_views(
                    chain_id,
                    vtxs.subrange(receipts@.len() as int, nt as int),
                    universe@,
                ),
            ),
            universe@ == spec_universe(rseq, wallets@),
            rseq == vtxs.map_values(|p: (Receipt, FrameView)| p.0),
        decreases rt@.len(),
    {
        let ghost i = receipts@.len();
        let ghost sfx = vtxs.subrange(i as int, nt as int);
        let ghost pre_rt = rt@;
        let pair = rt.remove(0);
        let receipt = pair.0;
        let frame = pair.1;
        proof {
            assert(pair == pre_rt[0]);
            assert(pre_rt.map_values(|p: (Receipt, CallFrame)| (p.0, frame_view(p.1)))[0] == (
                pre_rt[0].0,
                frame_view(pre_rt[0].1),
            ));
            assert(sfx[0] == (receipt, frame_view(frame)));
            assert(rt@ =~= pre_rt.subrange(1, pre_rt.len() as int));
            assert(rt@.map_values(|p: (Receipt, CallFrame)| (p.0, frame_view(p.1))) =~= pre_rt.map_values(
                |p: (Receipt, CallFrame)| (p.0, frame_view(p.1)),
            ).subrange(1, pre_rt.len() as int));
            assert(rt@.map_values(|p: (Receipt, CallFrame)| (p.0, frame_view(p.1))) =~= vtxs.subrange(
                i + 1 as int,
                nt as int,
            ));
        }
        proof {
            assert(sfx.len() > 0);
            assert(sfx.subrange(1, sfx.len() as int) =~= vtxs.subrange(i + 1 as int, nt as int));
            assert(rt@.map_values(|p: (Receipt, CallFrame)| (p.0, frame_view(p.1))) =~= vtxs.subrange(
                i + 1 as int,
                nt as int,
            ));
        }
        let full = match generate_pnl(chain_id, &receipt, frame, None) {
            Ok(s) => s,
            Err(e) => {
                proof {
                    assert(spec_full_result(chain_id, sfx[0].0, sfx[0].1) == Err::<
                        Sheet,
                        EngineError,
                    >(e));
                    assert(spec_tx_views(chain_id, sfx, universe@) == Err::<
                        Seq<TxView>,
                        EngineError,
                    >(e));
                }
                return Err(e);
            },
        };
        proof {
            assert(spec_full_result(chain_id, sfx[0].0, sfx[0].1) == Ok::<Sheet, EngineError>(
                full@,
            ));
        }
        let filtered = clone_and_retain_accounts(&full, &universe);
        let ghost pre_r = receipts@;
        let ghost pre_fu = fulls@;
        let ghost pre_fi = filtereds@;
        receipts.push(receipt);
        fulls.push(full);
        filtereds.push(filtered);
        proof {
            assert(wallet_views(receipts@, fulls@, filtereds@) =~= wallet_views(
                pre_r,
                pre_fu,
                pre_fi,
            ).push((receipts@[i as int], fulls@[i as int]@, filtereds@[i as int]@)));
            assert(wallet_views(pre_r, pre_fu, pre_fi) + seq![
                (receipts@[i as int], fulls@[i as int]@, filtereds@[i as int]@),
            ] =~= wallet_views(receipts@, fulls@, filtereds@));
            match spec_tx_views(chain_id, vtxs.subrange(i + 1 as int, nt as int), universe@) {
                Ok(rest) => {
                    assert(wallet_views(pre_r, pre_fu, pre_fi) + (seq![
                        (receipts@[i as int], fulls@[i as int]@, filtereds@[i as int]@),
                    ] + rest) =~= wallet_views(receipts@, fulls@, filtereds@) + rest);
                },
                Err(_) => {},
            }
        }
    }
    proof {
        assert(vtxs.subrange(nt as int, nt as int).len() == 0);
        assert(spec_tx_views(chain_id, vtxs.subrange(nt as int, nt as int), universe@) == Ok::<
            Seq<TxView>,
            EngineError,
        >(Seq::empty()));
        assert(wallet_views(receipts@, fulls@, filtereds@) + Seq::<TxView>::empty()
            =~= wallet_views(receipts@, fulls@, filtereds@));
    }
    let ghost views = wallet_views(receipts@, fulls@, filtereds@);

    // one report per wallet
    let mut reports: Vec<Option<PnlReport>> = Vec::new();
    let mut wj: usize = 0;
    proof {
        assert(wallets@.subrange(0, nw as int) =~= wallets@);
        assert(reports_view(reports@) =~= Seq::<Option<ReportView>>::empty());
        assert(wallets@.subrange(wj as int, nw as int) =~= wallets@);
    }
    while wj < nw
        invariant
            nw == wallets@.len(),
            wj <= nw,
            reports@.len() == wj,
            vtxs == receipt_and_traces@.map_values(
                |p: (Receipt, CallFrame)| (p.0, frame_view(p.1)),
            ),
            forall|i: int| 0 <= i < wallets@.len() ==> (#[trigger] wallets@[i]).wf(),
            receipts@.len() == fulls@.len(),
            receipts@.len() == filtereds@.len(),
            forall|i: int| 0 <= i < fulls@.len() ==> (#[trigger] fulls@[i]).wf(),
            forall|i: int| 0 <= i < filtereds@.len() ==> (#[trigger] filtereds@[i]).wf(),
            forall|i: int, j: int|
                0 <= i < j < receipts@.len() ==> (#[trigger] receipts@[i]).transaction_index < (
                #[trigger] receipts@[j]).transaction_index,
            (exists|k: int|
                0 <= k < wallets@.len() && spec_is_builder(
                    chain_id,
                    *header,
                    #[trigger] wallets@[k],
                )) ==> (header.base_fee_per_gas is Some && forall|i: int|
                0 <= i < receipts@.len() ==> (#[trigger] receipts@[i]).effective_gas_price
                    >= header.base_fee_per_gas.unwrap()),
            views == wallet_views(receipts@, fulls@, filtereds@),
            spec_tx_views(chain_id, vtxs, universe@) == Ok::<Seq<TxView>, EngineError>(views),
            universe@ == spec_universe(rseq, wallets@),
            rseq == vtxs.map_values(|p: (Receipt, FrameView)| p.0),
            spec_reports(chain_id, *header, views, wallets@) == prepend_reports(
                reports_view(reports@),
                spec_reports(chain_id, *header, views, wallets@.subrange(wj as int, nw as int)),
            ),
            forall|k: int|
                0 <= k < reports@.len() ==> match #[trigger] reports@[k] {
                    Some(rep) => forall|a: int, b: int|
                        0 <= a < b < rep.txs@.len() ==> (#[trigger] rep.txs@[a]).index < (
                        #[trigger] rep.txs@[b]).index,
                    None => true,
                },
        decreases nw - wj,
    {
        let ghost wsfx = wallets@.subrange(wj as int, nw as int);
        proof {
            assert(wsfx[0] == wallets@[wj as int]);
            assert(wsfx.subrange(1, wsfx.len() as int) =~= wallets@.subrange(
                wj + 1 as int,
                nw as int,
            ));
        }
        let wallet = &wallets[wj];
        match generate_wallet_report(chain_id, header, &receipts, &fulls, &filtereds, wallet) {
            Ok(o) => {
                let ghost pre = reports@;
                reports.push(o);
                proof {
                    assert(reports_view(reports@) =~= reports_view(pre).push(
                        match o {
                            Some(rep) => Some(report_view(rep)),
                            None => None,
                        },
                    ));
                    match spec_reports(
                        chain_id,
                        *header,
                        views,
                        wallets@.subrange(wj + 1 as int, nw as int),
                    ) {
                        Ok(rest) => {
                            assert(reports_view(pre) + (seq![
                                match o {
                                    Some(rep) => Some(report_view(rep)),
                                    None => None,
                                },
                            ] + rest) =~= reports_view(reports@) + rest);
                        },
                        Err(_) => {},
                    }
                }
            },
            Err(e) => {
                proof {
                    assert(spec_wallet_report(chain_id, *header, views, wsfx[0]) == Err::<
                        Option<ReportView>,
                        EngineError,
                    >(e));
                    assert(spec_reports(chain_id, *header, views, wsfx) == Err::<
                        Seq<Option<ReportView>>,
                        EngineError,
                    >(e));
                }
                return Err(e);
            },
        }
        wj = wj + 1;
    }
    proof {
        assert(wallets@.subrange(nw as int, nw as int) =~= Seq::<WalletWithContext>::empty());
        assert(spec_reports(
            chain_id,
            *header,
            views,
            wallets@.subrange(nw as int, nw as int),
        ) == Ok::<Seq<Option<ReportView>>, EngineError>(Seq::empty()));
        assert(reports_view(reports@) + Seq::<Option<ReportView>>::empty() =~= reports_view(
            reports@,
        ));
    }
    Ok(reports)
}

} // verus!

verus! {

/// Conservation at the transaction level: on the sheet a successful
/// transaction yields, each token's deltas sum to the net its mint and burn
/// transfers left; with no mint or burn they sum to zero.
pub proof fn lemma_sheet_conservation(chain_id: u64, receipt: Receipt, fv: FrameView, t: Address)
    requires
        receipt.status,
        wrapped_native_of(chain_id) is Some,
        spec_full_result(chain_id, receipt, fv) is Ok,
    ensures
        ({
            let weth = spec_addr_of_bytes(wrapped_native_of(chain_id).unwrap());
            let ts = walk_transfers(seq![fv], chain_id, weth, None);
            crate::balance_changes::token_sum(
                spec_full_result(chain_id, receipt, fv).unwrap(),
                t,
            ) == crate::balance_changes::net_mint(ts, t)
        }),
{
    let weth = spec_addr_of_bytes(wrapped_native_of(chain_id).unwrap());
    let ts = walk_transfers(seq![fv], chain_id, weth, None);
    crate::balance_changes::lemma_conservation(ts, t);
}

} // verus!

verus! {

impl TxAndPosition {
    /// The transaction's serialised shape: the 0x-prefixed hash, a colon,
    /// and the decimal index.
    pub fn position_string(&self) -> (r: String)
        ensures
            r@ == seq!['0', 'x'] + crate::utils::spec_hex_padded(self.hash.hi as nat, 32)
                + crate::utils::spec_hex_padded(self.hash.lo as nat, 32) + seq![':']
                + crate::utils::spec_decimal(self.index as nat),
    {
        let mut out = crate::utils::b256_to_hex(&self.hash);
        out.append(":");
        proof {
            reveal_strlit(":");
        }
        let idx = crate::utils::u256_to_decimal(&U256::from_u64(self.index));
        out.append(idx.as_str());
        proof {
            assert(out@ =~= seq!['0', 'x'] + crate::utils::spec_hex_padded(self.hash.hi as nat, 32)
                + crate::utils::spec_hex_padded(self.hash.lo as nat, 32) + seq![':']
                + crate::utils::spec_decimal(self.index as nat));
        }
        out
    }
}

} // verus!

verus! {

/// Every trace is a successful call frame.
pub open spec fn all_traces_succeed(ts: Seq<crate::types::TraceResult>) -> bool {
    forall|i: int| 0 <= i < ts.len() ==> (#[trigger] ts[i]) is Success
}

/// Pair each receipt with its call frame, in order. `Err(MalformedTrace)`
/// exactly when the lists disagree in length or some trace failed; that is
/// fatal for the block.
pub fn pair_receipts_and_traces(
    receipts: Vec<Receipt>,
    traces: Vec<crate::types::TraceResult>,
) -> (r: Result<Vec<(Receipt, CallFrame)>, EngineError>)
    ensures
        match r {
            Ok(v) => receipts@.len() == traces@.len() && all_traces_succeed(traces@) && v@.len()
                == receipts@.len() && forall|i: int|
                0 <= i < v@.len() ==> (#[trigger] v@[i]).0 == receipts@[i] && (
                traces@[i] matches crate::types::TraceResult::Success(f) && v@[i].1 == f),
            Err(e) => e == EngineError::MalformedTrace && !(receipts@.len() == traces@.len()
                && all_traces_succeed(traces@)),
        },
{
    if receipts.len() != traces.len() {
        return Err(EngineError::MalformedTrace);
    }
    let ghost orig_r = receipts@;
    let ghost orig_t = traces@;
    let mut rs = receipts;
    let mut ts = traces;
    let mut out: Vec<(Receipt, CallFrame)> = Vec::new();
    while !rs.is_empty()
        invariant
            orig_r == receipts@,
            orig_t == traces@,
            orig_r.len() == orig_t.len(),
            out@.len() + rs@.len() == orig_r.len(),
            rs@.len() == ts@.len(),
            rs@ =~= orig_r.subrange(out@.len() as int, orig_r.len() as int),
            ts@ =~= orig_t.subrange(out@.len() as int, orig_t.len() as int),
            forall|i: int|
                0 <= i < out@.len() ==> (#[trigger] out@[i]).0 == orig_r[i] && (
                orig_t[i] matches crate::types::TraceResult::Success(f) && out@[i].1 == f),
        decreases rs@.len(),
    {
        let ghost k = out@.len();
        let ghost pre_r = rs@;
        let ghost pre_t = ts@;
        let receipt = rs.remove(0);
        let trace = ts.remove(0);
        proof {
            assert(receipt == orig_r[k as int]);
            assert(pre_t[0] == orig_t[k as int]);
            assert(rs@ =~= orig_r.subrange(k + 1 as int, orig_r.len() as int));
            assert(ts@ =~= orig_t.subrange(k + 1 as int, orig_t.len() as int));
        }
        match trace {
            crate::types::TraceResult::Success(frame) => {
                out.push((receipt, frame));
            },
            crate::types::TraceResult::Error { .. } => {
                proof {
                    assert(!(orig_t[k as int] is Success));
                    assert(!all_traces_succeed(orig_t));
                }
                return Err(EngineError::MalformedTrace);
            },
        }
    }
    proof {
        assert(out@.len() == orig_r.len());
        assert(all_traces_succeed(orig_t)) by {
            assert forall|i: int| 0 <= i < orig_t.len() implies (#[trigger] orig_t[i]) is Success by {
                assert(orig_t[i] matches crate::types::TraceResult::Success(f) && out@[i].1 == f);
            }
        };
    }
    Ok(out)
}

} // verus!
