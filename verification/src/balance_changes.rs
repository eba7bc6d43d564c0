//! The two-level signed ledger: account -> token -> signed 256-bit delta.
//!
//! The model of a ledger is an association sequence with unique keys; a
//! `BalanceChange` maps tokens to deltas, a `BalanceChanges` maps accounts to
//! `BalanceChange`s. Missing entries read as zero.

use vstd::prelude::*;
use crate::int256::{I256, U256, i256_val, u256_val, i256_checked_add, i256_checked_sub, pow255, pow256};
use crate::types::{Address, EngineError};

verus! {

// ---------------------------------------------------------------------------
// Association-sequence model
// ---------------------------------------------------------------------------

/// Whether the association sequence binds the key.
pub open spec fn has_key<K, V>(s: Seq<(K, V)>, k: K) -> bool {
    exists|i: int| 0 <= i < s.len() && #[trigger] s[i].0 == k
}

/// The index binding the key (unique when keys are unique).
pub open spec fn key_at<K, V>(s: Seq<(K, V)>, k: K) -> int {
    choose|i: int| 0 <= i < s.len() && #[trigger] s[i].0 == k
}

/// The value bound to the key.
pub open spec fn val_of<K, V>(s: Seq<(K, V)>, k: K) -> V
    recommends
        has_key(s, k),
{
    s[key_at(s, k)].1
}

/// No key is bound twice.
pub open spec fn unique_keys<K, V>(s: Seq<(K, V)>) -> bool {
    forall|i: int, j: int| 0 <= i < j < s.len() ==> #[trigger] s[i].0 != #[trigger] s[j].0
}

/// With unique keys, an index binding `k` is the index `key_at` names.
pub proof fn lemma_key_at_unique<K, V>(s: Seq<(K, V)>, k: K, i: int)
    requires
        unique_keys(s),
        0 <= i < s.len(),
        s[i].0 == k,
    ensures
        has_key(s, k),
        key_at(s, k) == i,
{
    assert(has_key(s, k));
    let j = key_at(s, k);
    if i < j {
        assert(s[i].0 != s[j].0);
    } else if j < i {
        assert(s[j].0 != s[i].0);
    }
}

/// The delta bound to a token, zero when absent.
pub open spec fn delta_of(s: Seq<(Address, int)>, t: Address) -> int {
    if has_key(s, t) {
        val_of(s, t)
    } else {
        0
    }
}

/// Add `dv` to the token's delta: update the binding in place, or append one.
pub open spec fn entry_add(s: Seq<(Address, int)>, t: Address, dv: int) -> Seq<(Address, int)> {
    if has_key(s, t) {
        s.update(key_at(s, t), (t, val_of(s, t) + dv))
    } else {
        s.push((t, dv))
    }
}

/// Entries with a zero delta removed, order kept.
pub open spec fn prune_entries(s: Seq<(Address, int)>) -> Seq<(Address, int)> {
    s.filter(|e: (Address, int)| e.1 != 0)
}

/// A signed value fits 256-bit two's complement.
pub open spec fn in_i256(v: int) -> bool {
    -(pow255() as int) <= v < pow255()
}

/// An unsigned 256-bit value read as two's complement.
pub open spec fn as_signed(v: nat) -> int {
    if v >= pow255() {
        v - pow256()
    } else {
        v as int
    }
}

// ---------------------------------------------------------------------------
// Token -> delta
// ---------------------------------------------------------------------------

/// Token to signed balance change of one account.
pub struct BalanceChange {
    entries: Vec<(Address, I256)>,
}

impl View for BalanceChange {
    type V = Seq<(Address, int)>;

    closed spec fn view(&self) -> Seq<(Address, int)> {
        entries_view(self.entries@)
    }
}

/// The token-level view: pairs of token and mathematical delta.
pub(crate) open spec fn entries_view(s: Seq<(Address, I256)>) -> Seq<(Address, int)> {
    s.map_values(|e: (Address, I256)| (e.0, i256_val(e.1)))
}

impl BalanceChange {
    /// Well-formed: no token is bound twice.
    pub open spec fn wf(&self) -> bool {
        unique_keys(self@)
    }

    pub fn new() -> (r: BalanceChange)
        ensures
            r@ == Seq::<(Address, int)>::empty(),
            r.wf(),
    {
        BalanceChange { entries: Vec::new() }
    }

    pub fn is_empty(&self) -> (r: bool)
        ensures
            r == (self@.len() == 0),
    {
        self.entries.is_empty()
    }

    pub fn len(&self) -> (r: usize)
        ensures
            r == self@.len(),
    {
        self.entries.len()
    }

    /// The token and delta at a position, in insertion order.
    pub fn entry_at(&self, i: usize) -> (r: (Address, I256))
        requires
            i < self@.len(),
        ensures
            r.0 == self@[i as int].0,
            i256_val(r.1) == self@[i as int].1,
    {
        self.entries[i]
    }

    fn find(&self, t: &Address) -> (r: Option<usize>)
        ensures
            match r {
                Some(i) => i < self@.len() && self@[i as int].0 == *t,
                None => !has_key(self@, *t),
            },
    {
        let n = self.entries.len();
        let mut i: usize = 0;
        while i < n
            invariant
                n == self@.len(),
                i <= n,
                forall|j: int| 0 <= j < i ==> #[trigger] self@[j].0 != *t,
            decreases n - i,
        {
            if self.entries[i].0 == *t {
                return Some(i);
            }
            i = i + 1;
        }
        None
    }

    /// The delta recorded for a token, `None` when the token is absent.
    pub fn get(&self, t: &Address) -> (r: Option<I256>)
        requires
            self.wf(),
        ensures
            match r {
                Some(v) => has_key(self@, *t) && i256_val(v) == val_of(self@, *t),
                None => !has_key(self@, *t),
            },
    {
        match self.find(t) {
            Some(i) => {
                proof {
                    lemma_key_at_unique(self@, *t, i as int);
                }
                Some(self.entries[i].1)
            },
            None => None,
        }
    }

    /// Add `dv` to the token's delta; `Err` exactly when the new delta leaves
    /// the 256-bit range, and the ledger is then unchanged.
    pub fn add_delta(&mut self, t: Address, dv: I256) -> (r: Result<(), EngineError>)
        requires
            old(self).wf(),
        ensures
            final(self).wf(),
            match r {
                Ok(()) => in_i256(delta_of(old(self)@, t) + i256_val(dv)) && final(self)@
                    == entry_add(old(self)@, t, i256_val(dv)),
                Err(e) => e == EngineError::ArithmeticOverflow && !in_i256(
                    delta_of(old(self)@, t) + i256_val(dv),
                ) && final(self)@ == old(self)@,
            },
    {
        match self.find(&t) {
            Some(i) => {
                proof {
                    lemma_key_at_unique(self@, t, i as int);
                }
                let cur = self.entries[i].1;
                match i256_checked_add(&cur, &dv) {
                    Some(nv) => {
                        let _ = self.entries.remove(i);
                        self.entries.insert(i, (t, nv));
                        proof {
                            assert(self@ =~= entry_add(old(self)@, t, i256_val(dv)));
                            lemma_unique_update(old(self)@, i as int, t, i256_val(nv));
                        }
                        Ok(())
                    },
                    None => Err(EngineError::ArithmeticOverflow),
                }
            },
            None => {
                match i256_checked_add(&I256::zero(), &dv) {
                    Some(nv) => {
                        self.entries.push((t, nv));
                        proof {
                            assert(self@ =~= entry_add(old(self)@, t, i256_val(dv)));
                            lemma_unique_push(old(self)@, t, i256_val(nv));
                        }
                        Ok(())
                    },
                    None => Err(EngineError::ArithmeticOverflow),
                }
            },
        }
    }
}

/// Updating a binding in place keeps keys unique.
proof fn lemma_unique_update(s: Seq<(Address, int)>, i: int, k: Address, v: int)
    requires
        unique_keys(s),
        0 <= i < s.len(),
        s[i].0 == k,
    ensures
        unique_keys(s.update(i, (k, v))),
{
}

/// Appending a fresh key keeps keys unique.
proof fn lemma_unique_push(s: Seq<(Address, int)>, k: Address, v: int)
    requires
        unique_keys(s),
        !has_key(s, k),
    ensures
        unique_keys(s.push((k, v))),
{
    let s2 = s.push((k, v));
    assert forall|i: int, j: int| 0 <= i < j < s2.len() implies #[trigger] s2[i].0 != #[trigger] s2[j].0 by {
        if j == s.len() {
            assert(s2[i].0 == s[i].0);
        }
    }
}

} // verus!

verus! {

// ---------------------------------------------------------------------------
// Sheet model: account -> token -> delta
// ---------------------------------------------------------------------------

/// The model of a whole sheet: accounts to token-delta tables, in insertion
/// order, all keys unique.
pub type Sheet = Seq<(Address, Seq<(Address, int)>)>;

/// Well-formed sheet: account keys unique, every table's token keys unique,
/// and the zero address never an account key.
pub open spec fn sheet_wf(s: Sheet) -> bool {
    &&& unique_keys(s)
    &&& forall|i: int| 0 <= i < s.len() ==> unique_keys(#[trigger] s[i].1)
    &&& forall|i: int| 0 <= i < s.len() ==> (#[trigger] s[i].0) != Address::spec_zero()
}

/// The delta a sheet records for an account and token, zero when absent.
pub open spec fn sheet_delta(s: Sheet, a: Address, t: Address) -> int {
    if has_key(s, a) {
        delta_of(val_of(s, a), t)
    } else {
        0
    }
}

/// Bind the token's delta to `v` under the account: update the bindings in
/// place, or append them.
pub open spec fn entry_set(es: Seq<(Address, int)>, t: Address, v: int) -> Seq<(Address, int)> {
    if has_key(es, t) {
        es.update(key_at(es, t), (t, v))
    } else {
        es.push((t, v))
    }
}

pub open spec fn sheet_set(s: Sheet, a: Address, t: Address, v: int) -> Sheet {
    if has_key(s, a) {
        s.update(key_at(s, a), (a, entry_set(val_of(s, a), t, v)))
    } else {
        s.push((a, seq![(t, v)]))
    }
}

/// Add `dv` to the delta of (account, token).
pub open spec fn sheet_add(s: Sheet, a: Address, t: Address, dv: int) -> Sheet {
    sheet_set(s, a, t, sheet_delta(s, a, t) + dv)
}

/// One transfer tuple, as the extractor emits it: `value` is the unsigned
/// 256-bit word from the log or frame, reinterpreted as signed when applied.
pub struct Transfer {
    pub token: Address,
    pub from: Address,
    pub to: Address,
    pub value: nat,
}

/// Apply one transfer: subtract at `from` unless zero, add at `to` unless
/// zero; the zero endpoint means mint or burn.
pub open spec fn apply_transfer(s: Sheet, tr: Transfer) -> Sheet {
    let sv = as_signed(tr.value);
    let s1 = if tr.from != Address::spec_zero() {
        sheet_add(s, tr.from, tr.token, -sv)
    } else {
        s
    };
    if tr.to != Address::spec_zero() {
        sheet_add(s1, tr.to, tr.token, sv)
    } else {
        s1
    }
}

/// Both halves of a transfer stay inside the signed 256-bit range.
pub open spec fn transfer_fits(s: Sheet, tr: Transfer) -> bool {
    let sv = as_signed(tr.value);
    let s1 = if tr.from != Address::spec_zero() {
        sheet_add(s, tr.from, tr.token, -sv)
    } else {
        s
    };
    &&& (tr.from != Address::spec_zero() ==> in_i256(sheet_delta(s, tr.from, tr.token) - sv))
    &&& (tr.to != Address::spec_zero() ==> in_i256(sheet_delta(s1, tr.to, tr.token) + sv))
}

/// Apply a list of transfers in order.
pub open spec fn apply_transfers(s: Sheet, ts: Seq<Transfer>) -> Sheet
    decreases ts.len(),
{
    if ts.len() == 0 {
        s
    } else {
        apply_transfers(apply_transfer(s, ts[0]), ts.subrange(1, ts.len() as int))
    }
}

/// A sheet with zero deltas removed, and then accounts left empty removed.
pub open spec fn prune_sheet(s: Sheet) -> Sheet {
    s.map_values(|p: (Address, Seq<(Address, int)>)| (p.0, prune_entries(p.1))).filter(
        |p: (Address, Seq<(Address, int)>)| p.1.len() != 0,
    )
}

// ---------------------------------------------------------------------------
// Lemmas on the model
// ---------------------------------------------------------------------------

/// Setting one account's table changes no other account's deltas.
pub proof fn lemma_sheet_set_other(s: Sheet, a: Address, t: Address, v: int, b: Address, u: Address)
    requires
        unique_keys(s),
        b != a,
    ensures
        sheet_delta(sheet_set(s, a, t, v), b, u) == sheet_delta(s, b, u),
        unique_keys(sheet_set(s, a, t, v)),
{
    let s2 = sheet_set(s, a, t, v);
    if has_key(s, a) {
        let i = key_at(s, a);
        assert(0 <= i < s.len() && s[i].0 == a);
        assert(unique_keys(s2));
        if has_key(s, b) {
            let j = key_at(s, b);
            assert(s2[j] == s[j]);
            lemma_key_at_unique(s2, b, j);
        } else {
            assert(!has_key(s2, b)) by {
                if has_key(s2, b) {
                    let j = key_at(s2, b);
                    assert(s[j].0 == b);
                }
            };
        }
    } else {
        assert(s2 == s.push((a, seq![(t, v)])));
        assert(forall|i: int| 0 <= i < s.len() ==> s2[i] == s[i]);
        assert(unique_keys(s2)) by {
            assert forall|i: int, j: int| 0 <= i < j < s2.len() implies #[trigger] s2[i].0
                != #[trigger] s2[j].0 by {
                if j == s.len() {
                    assert(s2[i].0 == s[i].0);
                    assert(has_key(s, s[i].0));
                }
            }
        };
        if has_key(s, b) {
            let j = key_at(s, b);
            lemma_key_at_unique(s2, b, j);
        } else {
            assert(!has_key(s2, b)) by {
                if has_key(s2, b) {
                    let j = key_at(s2, b);
                    assert(0 <= j < s.len());
                    assert(s[j].0 == b);
                }
            };
        }
    }
}

/// Setting a delta makes that delta read back.
pub proof fn lemma_sheet_set_same(s: Sheet, a: Address, t: Address, v: int, u: Address)
    requires
        sheet_wf(s),
        a != Address::spec_zero(),
    ensures
        sheet_delta(sheet_set(s, a, t, v), a, t) == v,
        u != t ==> sheet_delta(sheet_set(s, a, t, v), a, u) == sheet_delta(s, a, u),
        sheet_wf(sheet_set(s, a, t, v)),
{
    let s2 = sheet_set(s, a, t, v);
    if has_key(s, a) {
        let i = key_at(s, a);
        assert(0 <= i < s.len() && s[i].0 == a);
        let es = val_of(s, a);
        let es2 = entry_set(es, t, v);
        assert(unique_keys(es));
        lemma_entry_set(es, t, v, u);
        lemma_key_at_unique(s2, a, i);
        assert(val_of(s2, a) == es2);
        assert(forall|j: int|
            0 <= j < s2.len() ==> (#[trigger] s2[j].0) != Address::spec_zero());
        assert(forall|j: int| 0 <= j < s2.len() && j != i ==> s2[j] == s[j]);
        assert(unique_keys(s2));
        assert forall|j: int| 0 <= j < s2.len() implies unique_keys(#[trigger] s2[j].1) by {
            if j != i {
                assert(s2[j] == s[j]);
            }
        }
    } else {
        assert(s2 == s.push((a, seq![(t, v)])));
        lemma_key_at_unique_push(s, a, seq![(t, v)]);
        assert(val_of(s2, a) == seq![(t, v)]);
        let es2: Seq<(Address, int)> = seq![(t, v)];
        assert(has_key(es2, t) && key_at(es2, t) == 0) by {
            lemma_key_at_unique(es2, t, 0);
        };
        assert(!has_key(es2, u) || u == t) by {
            if has_key(es2, u) {
                let j = key_at(es2, u);
                assert(j == 0);
            }
        };
        assert forall|j: int| 0 <= j < s2.len() implies unique_keys(#[trigger] s2[j].1)
            && (#[trigger] s2[j].0) != Address::spec_zero() by {
            if j < s.len() {
                assert(s2[j] == s[j]);
            }
        }
        assert(unique_keys(s2)) by {
            assert forall|i: int, j: int| 0 <= i < j < s2.len() implies #[trigger] s2[i].0
                != #[trigger] s2[j].0 by {
                if j == s.len() {
                    assert(s2[i].0 == s[i].0);
                    assert(has_key(s, s[i].0));
                }
            }
        };
    }
}

/// Appending a fresh account key: the new key reads back, others keep.
proof fn lemma_key_at_unique_push<K, V>(s: Seq<(K, V)>, k: K, v: V)
    requires
        !has_key(s, k),
    ensures
        has_key(s.push((k, v)), k),
        key_at(s.push((k, v)), k) == s.len(),
        val_of(s.push((k, v)), k) == v,
{
    let s2 = s.push((k, v));
    assert(s2[s.len() as int].0 == k);
    assert(has_key(s2, k));
    let j = key_at(s2, k);
    if j < s.len() {
        assert(s[j].0 == k);
    }
}

/// `entry_set` reads back at the set key and keeps the others.
proof fn lemma_entry_set(es: Seq<(Address, int)>, t: Address, v: int, u: Address)
    requires
        unique_keys(es),
    ensures
        unique_keys(entry_set(es, t, v)),
        delta_of(entry_set(es, t, v), t) == v,
        u != t ==> delta_of(entry_set(es, t, v), u) == delta_of(es, u),
{
    let es2 = entry_set(es, t, v);
    if has_key(es, t) {
        let i = key_at(es, t);
        assert(0 <= i < es.len() && es[i].0 == t);
        assert(unique_keys(es2));
        lemma_key_at_unique(es2, t, i);
        if u != t {
            if has_key(es, u) {
                let j = key_at(es, u);
                assert(es2[j] == es[j]);
                lemma_key_at_unique(es2, u, j);
            } else {
                if has_key(es2, u) {
                    let j = key_at(es2, u);
                    assert(es[j].0 == u);
                }
            }
        }
    } else {
        lemma_unique_push_generic(es, t, v);
        lemma_key_at_unique_push(es, t, v);
        if u != t {
            if has_key(es, u) {
                let j = key_at(es, u);
                lemma_key_at_unique(es2, u, j);
            } else {
                if has_key(es2, u) {
                    let j = key_at(es2, u);
                    assert(0 <= j < es.len());
                    assert(es[j].0 == u);
                }
            }
        }
    }
}

/// Appending a fresh key keeps keys unique (any key and value types).
proof fn lemma_unique_push_generic<K, V>(s: Seq<(K, V)>, k: K, v: V)
    requires
        unique_keys(s),
        !has_key(s, k),
    ensures
        unique_keys(s.push((k, v))),
{
    let s2 = s.push((k, v));
    assert forall|i: int, j: int| 0 <= i < j < s2.len() implies #[trigger] s2[i].0
        != #[trigger] s2[j].0 by {
        if j == s.len() {
            assert(s2[i].0 == s[i].0);
            assert(has_key(s, s[i].0));
        }
    }
}

} // verus!

verus! {

impl BalanceChange {
    /// Bind the token's delta to `v`.
    pub(crate) fn set_entry(&mut self, t: Address, v: I256)
        requires
            old(self).wf(),
        ensures
            final(self).wf(),
            final(self)@ == entry_set(old(self)@, t, i256_val(v)),
    {
        match self.find(&t) {
            Some(i) => {
                proof {
                    lemma_key_at_unique(self@, t, i as int);
                }
                let _ = self.entries.remove(i);
                self.entries.insert(i, (t, v));
                proof {
                    assert(self@ =~= entry_set(old(self)@, t, i256_val(v)));
                    lemma_unique_update(old(self)@, i as int, t, i256_val(v));
                }
            },
            None => {
                self.entries.push((t, v));
                proof {
                    assert(self@ =~= entry_set(old(self)@, t, i256_val(v)));
                    lemma_unique_push(old(self)@, t, i256_val(v));
                }
            },
        }
    }
}

// ---------------------------------------------------------------------------
// Account -> token -> delta
// ---------------------------------------------------------------------------

/// Account to token-delta table: the per-transaction balance-change sheet.
pub struct BalanceChanges {
    accounts: Vec<(Address, BalanceChange)>,
}

impl View for BalanceChanges {
    type V = Sheet;

    closed spec fn view(&self) -> Sheet {
        sheet_view(self.accounts@)
    }
}

/// The sheet-level view: pairs of account and token-level view.
pub(crate) open spec fn sheet_view(s: Seq<(Address, BalanceChange)>) -> Sheet {
    s.map_values(|e: (Address, BalanceChange)| (e.0, e.1@))
}

impl BalanceChanges {
    pub open spec fn wf(&self) -> bool {
        sheet_wf(self@)
    }

    pub fn new() -> (r: BalanceChanges)
        ensures
            r@ == Seq::<(Address, Seq<(Address, int)>)>::empty(),
            r.wf(),
    {
        BalanceChanges { accounts: Vec::new() }
    }

    pub fn is_empty(&self) -> (r: bool)
        ensures
            r == (self@.len() == 0),
    {
        self.accounts.is_empty()
    }

    pub fn len(&self) -> (r: usize)
        ensures
            r == self@.len(),
    {
        self.accounts.len()
    }

    /// The account at a position, in insertion order.
    pub fn account_at(&self, i: usize) -> (r: Address)
        requires
            i < self@.len(),
        ensures
            r == self@[i as int].0,
    {
        self.accounts[i].0
    }

    /// The account's token-delta table at a position, in insertion order.
    pub fn table_at(&self, i: usize) -> (r: &BalanceChange)
        requires
            i < self@.len(),
        ensures
            r@ == self@[i as int].1,
    {
        &self.accounts[i].1
    }

    fn find(&self, a: &Address) -> (r: Option<usize>)
        ensures
            match r {
                Some(i) => i < self@.len() && self@[i as int].0 == *a,
                None => !has_key(self@, *a),
            },
    {
        let n = self.accounts.len();
        let mut i: usize = 0;
        while i < n
            invariant
                n == self@.len(),
                i <= n,
                forall|j: int| 0 <= j < i ==> #[trigger] self@[j].0 != *a,
            decreases n - i,
        {
            if self.accounts[i].0 == *a {
                return Some(i);
            }
            i = i + 1;
        }
        None
    }

    /// The account's token-delta table, `None` when the account is absent.
    pub fn get(&self, a: &Address) -> (r: Option<&BalanceChange>)
        requires
            self.wf(),
        ensures
            match r {
                Some(bc) => has_key(self@, *a) && bc@ == val_of(self@, *a) && bc.wf(),
                None => !has_key(self@, *a),
            },
    {
        match self.find(a) {
            Some(i) => {
                proof {
                    lemma_key_at_unique(self@, *a, i as int);
                    assert(self@[i as int].1 == self.accounts@[i as int].1@);
                    assert(unique_keys(self@[i as int].1));
                }
                Some(&self.accounts[i].1)
            },
            None => None,
        }
    }

    /// The delta recorded for an account and token, zero when absent.
    pub fn get_delta(&self, a: &Address, t: &Address) -> (r: I256)
        requires
            self.wf(),
        ensures
            i256_val(r) == sheet_delta(self@, *a, *t),
    {
        match self.get(a) {
            Some(bc) => {
                match bc.get(t) {
                    Some(v) => v,
                    None => I256::zero(),
                }
            },
            None => I256::zero(),
        }
    }

    /// Bind (account, token) to the delta `v`.
    fn set_delta(&mut self, a: Address, t: Address, v: I256)
        requires
            old(self).wf(),
            a != Address::spec_zero(),
        ensures
            final(self).wf(),
            final(self)@ == sheet_set(old(self)@, a, t, i256_val(v)),
    {
        proof {
            lemma_sheet_set_same(old(self)@, a, t, i256_val(v), t);
        }
        match self.find(&a) {
            Some(i) => {
                proof {
                    lemma_key_at_unique(self@, a, i as int);
                }
                let mut pair = self.accounts.remove(i);
                pair.1.set_entry(t, v);
                self.accounts.insert(i, pair);
                proof {
                    assert(self@ =~= sheet_set(old(self)@, a, t, i256_val(v)));
                }
            },
            None => {
                let mut bc = BalanceChange::new();
                bc.set_entry(t, v);
                self.accounts.push((a, bc));
                proof {
                    assert(bc@ =~= seq![(t, i256_val(v))]);
                    assert(self@ =~= sheet_set(old(self)@, a, t, i256_val(v)));
                }
            },
        }
    }

    /// Record one transfer of `value` of `token` from `from` to `to`; the
    /// value's raw bits are read as two's complement, and a zero endpoint
    /// means mint or burn. `Err` exactly when a delta leaves the 256-bit
    /// range, and the sheet is then unchanged.
    pub fn append_transfer(&mut self, token: Address, from: Address, to: Address, value: U256) -> (r:
        Result<(), EngineError>)
        requires
            old(self).wf(),
        ensures
            final(self).wf(),
            ({
                let tr = Transfer { token, from, to, value: u256_val(value) };
                match r {
                    Ok(()) => transfer_fits(old(self)@, tr) && final(self)@ == apply_transfer(
                        old(self)@,
                        tr,
                    ),
                    Err(e) => e == EngineError::ArithmeticOverflow && !transfer_fits(
                        old(self)@,
                        tr,
                    ) && final(self)@ == old(self)@,
                }
            }),
    {
        let ghost tr = Transfer { token, from, to, value: u256_val(value) };
        let sv = I256::from_raw(value);
        let from_is_zero = from.is_zero();
        let to_is_zero = to.is_zero();

        let mut nf = I256::zero();
        if !from_is_zero {
            let cur = self.get_delta(&from, &token);
            match i256_checked_sub(&cur, &sv) {
                Some(x) => {
                    nf = x;
                },
                None => {
                    return Err(EngineError::ArithmeticOverflow);
                },
            }
        }
        proof {
            if from != Address::spec_zero() {
                lemma_sheet_set_same(old(self)@, from, token, sheet_delta(old(self)@, from, token) - as_signed(tr.value), token);
            }
        }
        let mut nt = I256::zero();
        if !to_is_zero {
            let cur = if !from_is_zero && to == from {
                nf
            } else {
                let c = self.get_delta(&to, &token);
                proof {
                    if from != Address::spec_zero() {
                        lemma_sheet_set_other(
                            old(self)@,
                            from,
                            token,
                            sheet_delta(old(self)@, from, token) - as_signed(tr.value),
                            to,
                            token,
                        );
                    }
                }
                c
            };
            match i256_checked_add(&cur, &sv) {
                Some(x) => {
                    nt = x;
                },
                None => {
                    return Err(EngineError::ArithmeticOverflow);
                },
            }
        }
        if !from_is_zero {
            self.set_delta(from, token, nf);
        }
        if !to_is_zero {
            self.set_delta(to, token, nt);
        }
        Ok(())
    }
}

} // verus!

verus! {

// ---------------------------------------------------------------------------
// Filter lemmas
// ---------------------------------------------------------------------------

/// One step of `filter` at the back of a sequence.
pub proof fn lemma_filter_push<A>(s: Seq<A>, p: spec_fn(A) -> bool, x: A)
    ensures
        s.push(x).filter(p) == (if p(x) {
            s.filter(p).push(x)
        } else {
            s.filter(p)
        }),
{
    reveal(Seq::filter);
    assert(s.push(x).drop_last() =~= s);
    assert(s.push(x).last() == x);
}

/// Every element of a filtered sequence is an element of the original.
pub proof fn lemma_filter_elem<A>(s: Seq<A>, p: spec_fn(A) -> bool)
    ensures
        forall|i: int|
            0 <= i < s.filter(p).len() ==> s.contains(#[trigger] s.filter(p)[i]),
    decreases s.len(),
{
    reveal(Seq::filter);
    if s.len() > 0 {
        let s1 = s.drop_last();
        lemma_filter_elem(s1, p);
        assert forall|i: int|
            0 <= i < s.filter(p).len() implies s.contains(#[trigger] s.filter(p)[i]) by {
            if i < s1.filter(p).len() {
                assert(s1.contains(s1.filter(p)[i]));
                let j = choose|j: int| 0 <= j < s1.len() && s1[j] == s1.filter(p)[i];
                assert(s[j] == s.filter(p)[i]);
            } else {
                assert(s.filter(p)[i] == s.last());
                assert(s[s.len() - 1] == s.last());
            }
        }
    }
}

/// A key bound in a filtered association sequence is bound in the original.
pub proof fn lemma_filter_keys<K, V>(s: Seq<(K, V)>, p: spec_fn((K, V)) -> bool, k: K)
    requires
        has_key(s.filter(p), k),
    ensures
        has_key(s, k),
{
    lemma_filter_elem(s, p);
    let i = key_at(s.filter(p), k);
    let j = choose|j: int| 0 <= j < s.len() && s[j] == s.filter(p)[i];
    assert(s[j].0 == k);
}

/// Filtering keeps keys unique.
pub proof fn lemma_filter_unique<K, V>(s: Seq<(K, V)>, p: spec_fn((K, V)) -> bool)
    requires
        unique_keys(s),
    ensures
        unique_keys(s.filter(p)),
    decreases s.len(),
{
    reveal(Seq::filter);
    if s.len() > 0 {
        let s1 = s.drop_last();
        assert(unique_keys(s1));
        lemma_filter_unique(s1, p);
        if p(s.last()) {
            let out = s1.filter(p).push(s.last());
            assert forall|i: int, j: int| 0 <= i < j < out.len() implies #[trigger] out[i].0
                != #[trigger] out[j].0 by {
                if j == out.len() - 1 {
                    if out[i].0 == s.last().0 {
                        lemma_filter_keys(s1, p, out[i].0);
                        let w = key_at(s1, out[i].0);
                        assert(s[w].0 == s[s.len() - 1].0);
                    }
                }
            }
        }
    }
}

/// Pruning twice is pruning once (token level).
pub proof fn lemma_prune_entries_idempotent(s: Seq<(Address, int)>)
    ensures
        prune_entries(prune_entries(s)) == prune_entries(s),
    decreases s.len(),
{
    reveal(Seq::filter);
    let p = |e: (Address, int)| e.1 != 0;
    if s.len() == 0 {
    } else {
        let s1 = s.drop_last();
        lemma_prune_entries_idempotent(s1);
        if p(s.last()) {
            lemma_filter_push(s1.filter(p), p, s.last());
            assert(s1.filter(p).push(s.last()).drop_last() =~= s1.filter(p));
        }
    }
}

/// `prune_sheet` of the empty sheet is empty.
pub proof fn lemma_prune_sheet_empty()
    ensures
        prune_sheet(Seq::<(Address, Seq<(Address, int)>)>::empty()) == Seq::<(
            Address,
            Seq<(Address, int)>,
        )>::empty(),
{
    reveal(Seq::filter);
    let f = |q: (Address, Seq<(Address, int)>)| (q.0, prune_entries(q.1));
    assert(Seq::<(Address, Seq<(Address, int)>)>::empty().map_values(f) =~= Seq::<(
        Address,
        Seq<(Address, int)>,
    )>::empty());
}

/// `prune_sheet` taken apart at the first account.
pub proof fn lemma_prune_sheet_decompose(s: Sheet)
    requires
        s.len() > 0,
    ensures
        prune_sheet(s) == (if prune_entries(s[0].1).len() != 0 {
            seq![(s[0].0, prune_entries(s[0].1))]
        } else {
            Seq::<(Address, Seq<(Address, int)>)>::empty()
        }) + prune_sheet(s.subrange(1, s.len() as int)),
{
    let f = |q: (Address, Seq<(Address, int)>)| (q.0, prune_entries(q.1));
    let p = |q: (Address, Seq<(Address, int)>)| q.1.len() != 0;
    let rest = s.subrange(1, s.len() as int);
    let head: Sheet = seq![f(s[0])];
    assert(s.map_values(f) =~= head + rest.map_values(f));
    Seq::filter_distributes_over_add(head, rest.map_values(f), p);
    reveal_with_fuel(Seq::filter, 3);
    assert(head.drop_last() =~= Seq::<(Address, Seq<(Address, int)>)>::empty());
    assert(head.last() == f(s[0]));
    assert(head.drop_last().filter(p) == Seq::<(Address, Seq<(Address, int)>)>::empty().filter(p));
    assert(head.filter(p) == (if p(f(s[0])) {
        Seq::<(Address, Seq<(Address, int)>)>::empty().push(f(s[0]))
    } else {
        Seq::<(Address, Seq<(Address, int)>)>::empty()
    }));
    if p(f(s[0])) {
        assert(Seq::<(Address, Seq<(Address, int)>)>::empty().push(f(s[0])) =~= seq![f(s[0])]);
    }
    assert((head + rest.map_values(f)).filter(p) == prune_sheet(s));
}

/// Pruning keeps a sheet well-formed.
pub proof fn lemma_prune_sheet_wf(s: Sheet)
    requires
        sheet_wf(s),
    ensures
        sheet_wf(prune_sheet(s)),
{
    let f = |q: (Address, Seq<(Address, int)>)| (q.0, prune_entries(q.1));
    let p = |q: (Address, Seq<(Address, int)>)| q.1.len() != 0;
    let m = s.map_values(f);
    assert(unique_keys(m)) by {
        assert forall|i: int, j: int| 0 <= i < j < m.len() implies #[trigger] m[i].0
            != #[trigger] m[j].0 by {
            assert(s[i].0 != s[j].0);
        }
    };
    lemma_filter_unique(m, p);
    lemma_filter_elem(m, p);
    assert(prune_sheet(s) == m.filter(p));
    assert(unique_keys(prune_sheet(s)));
    assert forall|i: int| #![trigger prune_sheet(s)[i]] 0 <= i < prune_sheet(s).len() implies
        unique_keys(prune_sheet(s)[i].1) && prune_sheet(s)[i].0 != Address::spec_zero() by {
        assert(m.contains(m.filter(p)[i]));
        let j = choose|j: int| 0 <= j < m.len() && m[j] == m.filter(p)[i];
        assert(m[j] == (s[j].0, prune_entries(s[j].1)));
        assert(unique_keys(s[j].1));
        lemma_filter_unique(s[j].1, |e: (Address, int)| e.1 != 0);
        assert(prune_sheet(s)[i].1 == prune_entries(s[j].1));
        assert(s[j].0 != Address::spec_zero());
    }
    assert(forall|i: int|
        0 <= i < prune_sheet(s).len() ==> unique_keys(#[trigger] prune_sheet(s)[i].1));
    assert(forall|i: int|
        0 <= i < prune_sheet(s).len() ==> (#[trigger] prune_sheet(s)[i].0)
            != Address::spec_zero());
}

/// Pruning twice is pruning once (sheet level).
pub proof fn lemma_prune_sheet_idempotent(s: Sheet)
    ensures
        prune_sheet(prune_sheet(s)) == prune_sheet(s),
    decreases s.len(),
{
    let f = |q: (Address, Seq<(Address, int)>)| (q.0, prune_entries(q.1));
    let p = |q: (Address, Seq<(Address, int)>)| q.1.len() != 0;
    if s.len() == 0 {
        lemma_prune_sheet_empty();
    } else {
        let rest = s.subrange(1, s.len() as int);
        lemma_prune_sheet_decompose(s);
        lemma_prune_sheet_idempotent(rest);
        lemma_prune_entries_idempotent(s[0].1);
        if prune_entries(s[0].1).len() != 0 {
            let head: Sheet = seq![(s[0].0, prune_entries(s[0].1))];
            let ps = head + prune_sheet(rest);
            assert(ps.len() > 0);
            assert(ps[0] == (s[0].0, prune_entries(s[0].1)));
            lemma_prune_sheet_decompose(ps);
            assert(ps.subrange(1, ps.len() as int) =~= prune_sheet(rest));
            assert(prune_sheet(ps) == head + prune_sheet(prune_sheet(rest)));
        } else {
            assert(prune_sheet(s) =~= prune_sheet(rest));
        }
    }
}

// ---------------------------------------------------------------------------
// Pruning, pointwise extension, removal
// ---------------------------------------------------------------------------

impl BalanceChange {
    /// Remove all zero deltas, keeping order.
    pub fn retain_non_zero(&mut self)
        requires
            old(self).wf(),
        ensures
            final(self).wf(),
            final(self)@ == prune_entries(old(self)@),
    {
        let mut kept: Vec<(Address, I256)> = Vec::new();
        let n = self.entries.len();
        let mut i: usize = 0;
        proof {
            reveal(Seq::filter);
            assert(self@.subrange(0, 0) =~= Seq::<(Address, int)>::empty());
        }
        while i < n
            invariant
                n == self.entries@.len(),
                i <= n,
                self == old(self),
                entries_view(kept@) == prune_entries(self@.subrange(0, i as int)),
            decreases n - i,
        {
            let e = self.entries[i];
            let ghost prev = kept@;
            proof {
                assert(self@.subrange(0, i + 1 as int) =~= self@.subrange(0, i as int).push(
                    self@[i as int],
                ));
                lemma_filter_push(
                    self@.subrange(0, i as int),
                    |e: (Address, int)| e.1 != 0,
                    self@[i as int],
                );
                assert(self@[i as int] == (e.0, i256_val(e.1)));
            }
            if !e.1.is_zero() {
                kept.push(e);
                proof {
                    assert(kept@ =~= prev.push(e));
                    assert(entries_view(kept@) =~= entries_view(prev).push((e.0, i256_val(e.1))));
                    assert(prune_entries(self@.subrange(0, i + 1 as int)) == prune_entries(
                        self@.subrange(0, i as int),
                    ).push(self@[i as int]));
                    assert(entries_view(kept@) == prune_entries(self@.subrange(0, i + 1 as int)));
                }
            } else {
                proof {
                    assert(self@[i as int].1 == 0);
                }
            }
            i = i + 1;
        }
        proof {
            assert(self@.subrange(0, n as int) =~= self@);
            lemma_filter_unique(old(self)@, |e: (Address, int)| e.1 != 0);
        }
        self.entries = kept;
    }

    /// Pointwise add the other table into this one; `Err` exactly when some
    /// accumulated delta leaves the 256-bit range.
    pub fn extend(&mut self, other: &BalanceChange) -> (r: Result<(), EngineError>)
        requires
            old(self).wf(),
        ensures
            final(self).wf(),
            match r {
                Ok(()) => extend_fits(old(self)@, other@) && final(self)@ == extend_entries(
                    old(self)@,
                    other@,
                ),
                Err(e) => e == EngineError::ArithmeticOverflow && !extend_fits(
                    old(self)@,
                    other@,
                ),
            },
    {
        let n = other.len();
        let mut i: usize = 0;
        proof {
            assert(other@.subrange(0, n as int) =~= other@);
        }
        while i < n
            invariant
                n == other@.len(),
                i <= n,
                self.wf(),
                extend_entries(old(self)@, other@) == extend_entries(
                    self@,
                    other@.subrange(i as int, n as int),
                ),
                extend_fits(old(self)@, other@) == extend_fits(
                    self@,
                    other@.subrange(i as int, n as int),
                ),
            decreases n - i,
        {
            let ghost pre = self@;
            let ghost rem = other@.subrange(i as int, n as int);
            let e = other.entry_at(i);
            let res = self.add_delta(e.0, e.1);
            proof {
                assert(rem[0] == other@[i as int]);
                assert(rem.subrange(1, rem.len() as int) =~= other@.subrange(
                    i + 1 as int,
                    n as int,
                ));
            }
            match res {
                Ok(()) => {
                },
                Err(err) => {
                    proof {
                        assert(!extend_fits(pre, rem));
                    }
                    return Err(err);
                },
            }
            i = i + 1;
        }
        proof {
            assert(other@.subrange(n as int, n as int) =~= Seq::<(Address, int)>::empty());
        }
        Ok(())
    }

    /// Remove a token's binding, returning its delta.
    pub fn remove(&mut self, t: &Address) -> (r: Option<I256>)
        requires
            old(self).wf(),
        ensures
            final(self).wf(),
            final(self)@ == remove_key(old(self)@, *t),
            match r {
                Some(v) => has_key(old(self)@, *t) && i256_val(v) == val_of(old(self)@, *t),
                None => !has_key(old(self)@, *t),
            },
    {
        match self.find(t) {
            Some(i) => {
                proof {
                    lemma_key_at_unique(self@, *t, i as int);
                }
                let e = self.entries.remove(i);
                proof {
                    assert(self@ =~= remove_key(old(self)@, *t));
                    lemma_unique_remove(old(self)@, i as int);
                }
                Some(e.1)
            },
            None => None,
        }
    }
}

/// The sequence with the key's binding removed, when there is one.
pub open spec fn remove_key<K, V>(s: Seq<(K, V)>, k: K) -> Seq<(K, V)> {
    if has_key(s, k) {
        s.remove(key_at(s, k))
    } else {
        s
    }
}

/// Fold the second table into the first, binding by binding.
pub open spec fn extend_entries(a: Seq<(Address, int)>, b: Seq<(Address, int)>) -> Seq<
    (Address, int),
>
    decreases b.len(),
{
    if b.len() == 0 {
        a
    } else {
        extend_entries(entry_add(a, b[0].0, b[0].1), b.subrange(1, b.len() as int))
    }
}

/// Every accumulated delta of the fold stays in the 256-bit range.
pub open spec fn extend_fits(a: Seq<(Address, int)>, b: Seq<(Address, int)>) -> bool
    decreases b.len(),
{
    if b.len() == 0 {
        true
    } else {
        &&& in_i256(delta_of(a, b[0].0) + b[0].1)
        &&& extend_fits(entry_add(a, b[0].0, b[0].1), b.subrange(1, b.len() as int))
    }
}

/// Removing an index keeps keys unique.
proof fn lemma_unique_remove<K, V>(s: Seq<(K, V)>, i: int)
    requires
        unique_keys(s),
        0 <= i < s.len(),
    ensures
        unique_keys(s.remove(i)),
{
    let s2 = s.remove(i);
    assert forall|x: int, y: int| 0 <= x < y < s2.len() implies #[trigger] s2[x].0
        != #[trigger] s2[y].0 by {
        let x0 = if x < i {
            x
        } else {
            x + 1
        };
        let y0 = if y < i {
            y
        } else {
            y + 1
        };
        assert(s2[x] == s[x0] && s2[y] == s[y0]);
    }
}

} // verus!

verus! {

impl BalanceChanges {
    /// Remove all zero deltas, then all accounts left with an empty table.
    pub fn retain_non_zero(&mut self)
        requires
            old(self).wf(),
        ensures
            final(self).wf(),
            final(self)@ == prune_sheet(old(self)@),
    {
        let mut kept: Vec<(Address, BalanceChange)> = Vec::new();
        proof {
            lemma_prune_sheet_wf(old(self)@);
            assert(sheet_view(kept@) =~= Seq::<(Address, Seq<(Address, int)>)>::empty());
        }
        while !self.accounts.is_empty()
            invariant
                sheet_wf(self@),
                sheet_view(kept@) + prune_sheet(self@) == prune_sheet(old(self)@),
            decreases self.accounts@.len(),
        {
            let ghost pre_rem = self@;
            let ghost pre_kept = sheet_view(kept@);
            let mut pair = self.accounts.remove(0);
            let a = pair.0;
            proof {
                assert(self@ =~= pre_rem.subrange(1, pre_rem.len() as int));
                lemma_prune_sheet_decompose(pre_rem);
                assert(pre_rem[0].1 == pair.1@);
                assert(unique_keys(pair.1@));
            }
            pair.1.retain_non_zero();
            if !pair.1.is_empty() {
                proof {
                    assert(pair.1@ == prune_entries(pre_rem[0].1));
                }
                kept.push(pair);
                proof {
                    assert(sheet_view(kept@) =~= pre_kept.push((a, prune_entries(pre_rem[0].1))));
                    assert(pre_kept.push((a, prune_entries(pre_rem[0].1))) =~= pre_kept + seq![
                        (a, prune_entries(pre_rem[0].1)),
                    ]);
                    assert(sheet_view(kept@) + prune_sheet(self@) =~= prune_sheet(old(self)@));
                }
            } else {
                proof {
                    assert(prune_entries(pre_rem[0].1).len() == 0);
                    assert(sheet_view(kept@) + prune_sheet(self@) =~= prune_sheet(old(self)@));
                }
            }
            // keep the remaining suffix well-formed
            proof {
                assert forall|i: int, j: int| 0 <= i < j < self@.len() implies #[trigger] self@[i].0
                    != #[trigger] self@[j].0 by {
                    assert(self@[i] == pre_rem[i + 1] && self@[j] == pre_rem[j + 1]);
                }
                assert forall|i: int| 0 <= i < self@.len() implies unique_keys(
                    #[trigger] self@[i].1,
                ) && (#[trigger] self@[i].0) != Address::spec_zero() by {
                    assert(self@[i] == pre_rem[i + 1]);
                }
                assert(forall|i: int| 0 <= i < self@.len() ==> unique_keys(#[trigger] self@[i].1));
                assert(forall|i: int|
                    0 <= i < self@.len() ==> (#[trigger] self@[i].0) != Address::spec_zero());
            }
        }
        proof {
            assert(self@.len() == 0);
            assert(self@ =~= Seq::<(Address, Seq<(Address, int)>)>::empty());
            lemma_prune_sheet_empty();
            assert(sheet_view(kept@) =~= prune_sheet(old(self)@));
        }
        self.accounts = kept;
    }
}

} // verus!

verus! {

impl BalanceChange {
    /// Remove the native entry and, where the chain has a wrapped-native
    /// token, that entry too; their sum is the scalar ether contribution.
    /// `Err` exactly when the sum leaves the 256-bit range.
    pub fn extract_ether(&mut self, chain_id: u64) -> (r: Result<I256, EngineError>)
        requires
            old(self).wf(),
        ensures
            final(self).wf(),
            ({
                let wethv = match crate::chain::wrapped_native_of(chain_id) {
                    Some(b) => delta_of(old(self)@, crate::chain::spec_addr_of_bytes(b)),
                    None => 0,
                };
                let s1 = match crate::chain::wrapped_native_of(chain_id) {
                    Some(b) => remove_key(old(self)@, crate::chain::spec_addr_of_bytes(b)),
                    None => old(self)@,
                };
                let ethv = delta_of(s1, Address::spec_zero());
                &&& final(self)@ == remove_key(s1, Address::spec_zero())
                &&& match r {
                    Ok(v) => i256_val(v) == ethv + wethv,
                    Err(e) => e == EngineError::ArithmeticOverflow && !in_i256(ethv + wethv),
                }
            }),
    {
        let mut wethv = I256::zero();
        match crate::chain::wrapped_native_token(chain_id) {
            Some(w) => {
                match self.remove(&w) {
                    Some(v) => {
                        wethv = v;
                    },
                    None => {},
                }
            },
            None => {},
        }
        let mut ethv = I256::zero();
        let zero_addr = Address::zero();
        match self.remove(&zero_addr) {
            Some(v) => {
                ethv = v;
            },
            None => {},
        }
        match i256_checked_add(&ethv, &wethv) {
            Some(s) => Ok(s),
            None => Err(EngineError::ArithmeticOverflow),
        }
    }
}

} // verus!

verus! {

// ---------------------------------------------------------------------------
// Conservation: per-token sums over a sheet
// ---------------------------------------------------------------------------

/// The sum of one token's deltas over all accounts of a sheet.
pub open spec fn token_sum(s: Sheet, t: Address) -> int
    decreases s.len(),
{
    if s.len() == 0 {
        0
    } else {
        token_sum(s.drop_last(), t) + delta_of(s.last().1, t)
    }
}

/// What one transfer adds to the sum of a token's deltas: zero when both
/// endpoints are accounts, the signed value on a mint (`from` zero), its
/// negation on a burn (`to` zero).
pub open spec fn transfer_sum_effect(tr: Transfer, t: Address) -> int {
    if tr.token == t {
        let sv = as_signed(tr.value);
        (if tr.to == Address::spec_zero() {
            0
        } else {
            sv
        }) - (if tr.from == Address::spec_zero() {
            0
        } else {
            sv
        })
    } else {
        0
    }
}

/// The net mint minus burn a transfer list leaves in one token.
pub open spec fn net_mint(ts: Seq<Transfer>, t: Address) -> int
    decreases ts.len(),
{
    if ts.len() == 0 {
        0
    } else {
        transfer_sum_effect(ts[0], t) + net_mint(ts.subrange(1, ts.len() as int), t)
    }
}

proof fn lemma_token_sum_push(s: Sheet, p: (Address, Seq<(Address, int)>), t: Address)
    ensures
        token_sum(s.push(p), t) == token_sum(s, t) + delta_of(p.1, t),
{
    assert(s.push(p).drop_last() =~= s);
    assert(s.push(p).last() == p);
}

proof fn lemma_token_sum_update(s: Sheet, i: int, p: (Address, Seq<(Address, int)>), t: Address)
    requires
        0 <= i < s.len(),
    ensures
        token_sum(s.update(i, p), t) == token_sum(s, t) - delta_of(s[i].1, t) + delta_of(p.1, t),
    decreases s.len(),
{
    let s2 = s.update(i, p);
    if i == s.len() - 1 {
        assert(s2.drop_last() =~= s.drop_last());
        assert(s2.last() == p);
        assert(s.last() == s[i]);
    } else {
        assert(s2.drop_last() =~= s.drop_last().update(i, p));
        assert(s2.last() == s.last());
        assert(s.drop_last()[i] == s[i]);
        lemma_token_sum_update(s.drop_last(), i, p, t);
    }
}

/// `entry_add` is `entry_set` at the accumulated delta.
proof fn lemma_entry_add_is_set(es: Seq<(Address, int)>, tok: Address, dv: int)
    ensures
        entry_add(es, tok, dv) == entry_set(es, tok, delta_of(es, tok) + dv),
{
}

proof fn lemma_delta_entry_add(es: Seq<(Address, int)>, tok: Address, dv: int, t: Address)
    requires
        unique_keys(es),
    ensures
        delta_of(entry_add(es, tok, dv), t) == delta_of(es, t) + (if t == tok {
            dv
        } else {
            0
        }),
{
    lemma_entry_add_is_set(es, tok, dv);
    lemma_entry_set(es, tok, delta_of(es, tok) + dv, t);
}

/// Adding to one (account, token) cell moves the token's sum by the same
/// amount and no other token's sum at all.
proof fn lemma_sheet_add_sum(s: Sheet, a: Address, tok: Address, dv: int, t: Address)
    requires
        sheet_wf(s),
        a != Address::spec_zero(),
    ensures
        token_sum(sheet_add(s, a, tok, dv), t) == token_sum(s, t) + (if t == tok {
            dv
        } else {
            0
        }),
{
    let s2 = sheet_add(s, a, tok, dv);
    if has_key(s, a) {
        let i = key_at(s, a);
        assert(0 <= i < s.len() && s[i].0 == a);
        let es = val_of(s, a);
        assert(es == s[i].1);
        assert(unique_keys(es));
        lemma_token_sum_update(s, i, (a, entry_add(es, tok, dv)), t);
        lemma_delta_entry_add(es, tok, dv, t);
    } else {
        let es: Seq<(Address, int)> = seq![(tok, dv)];
        assert(s2 == s.push((a, es)));
        lemma_token_sum_push(s, (a, es), t);
        assert(es[0].0 == tok);
        lemma_key_at_unique(es, tok, 0);
        if t == tok {
            assert(delta_of(es, t) == dv);
        } else {
            if has_key(es, t) {
                let j = key_at(es, t);
                assert(j == 0);
            }
            assert(delta_of(es, t) == 0);
        }
    }
}

/// A transfer keeps a sheet well-formed.
pub proof fn lemma_apply_transfer_wf(s: Sheet, tr: Transfer)
    requires
        sheet_wf(s),
    ensures
        sheet_wf(apply_transfer(s, tr)),
{
    let sv = as_signed(tr.value);
    if tr.from != Address::spec_zero() {
        lemma_sheet_set_same(s, tr.from, tr.token, sheet_delta(s, tr.from, tr.token) - sv, tr.token);
    }
    let s1 = if tr.from != Address::spec_zero() {
        sheet_add(s, tr.from, tr.token, -sv)
    } else {
        s
    };
    if tr.to != Address::spec_zero() {
        lemma_sheet_set_same(s1, tr.to, tr.token, sheet_delta(s1, tr.to, tr.token) + sv, tr.token);
    }
}

/// One transfer moves a token's sum by exactly its mint-minus-burn effect.
pub proof fn lemma_apply_transfer_sum(s: Sheet, tr: Transfer, t: Address)
    requires
        sheet_wf(s),
    ensures
        token_sum(apply_transfer(s, tr), t) == token_sum(s, t) + transfer_sum_effect(tr, t),
{
    let sv = as_signed(tr.value);
    let s1 = if tr.from != Address::spec_zero() {
        sheet_add(s, tr.from, tr.token, -sv)
    } else {
        s
    };
    if tr.from != Address::spec_zero() {
        lemma_sheet_add_sum(s, tr.from, tr.token, -sv, t);
        lemma_sheet_set_same(s, tr.from, tr.token, sheet_delta(s, tr.from, tr.token) - sv, tr.token);
    }
    if tr.to != Address::spec_zero() {
        lemma_sheet_add_sum(s1, tr.to, tr.token, sv, t);
    }
}

/// A transfer list moves a token's sum by its net mint minus burn.
pub proof fn lemma_apply_transfers_sum(s: Sheet, ts: Seq<Transfer>, t: Address)
    requires
        sheet_wf(s),
    ensures
        sheet_wf(apply_transfers(s, ts)),
        token_sum(apply_transfers(s, ts), t) == token_sum(s, t) + net_mint(ts, t),
    decreases ts.len(),
{
    if ts.len() == 0 {
    } else {
        lemma_apply_transfer_wf(s, ts[0]);
        lemma_apply_transfer_sum(s, ts[0], t);
        lemma_apply_transfers_sum(apply_transfer(s, ts[0]), ts.subrange(1, ts.len() as int), t);
    }
}

/// A binding under a fresh key on top does not change a lookup.
proof fn lemma_delta_push(es: Seq<(Address, int)>, e: (Address, int), t: Address)
    requires
        unique_keys(es.push(e)),
        t != e.0,
    ensures
        delta_of(es.push(e), t) == delta_of(es, t),
{
    let es2 = es.push(e);
    assert(unique_keys(es)) by {
        assert(forall|i: int| 0 <= i < es.len() ==> es[i] == es2[i]);
    };
    if has_key(es, t) {
        let j = key_at(es, t);
        assert(es2[j].0 == t);
        lemma_key_at_unique(es2, t, j);
        lemma_key_at_unique(es, t, j);
    } else {
        if has_key(es2, t) {
            let j = key_at(es2, t);
            assert(j < es.len());
            assert(es[j].0 == t);
        }
    }
}

/// Pruning zero deltas changes no lookup.
proof fn lemma_prune_delta(es: Seq<(Address, int)>, t: Address)
    requires
        unique_keys(es),
    ensures
        delta_of(prune_entries(es), t) == delta_of(es, t),
    decreases es.len(),
{
    reveal(Seq::filter);
    if es.len() == 0 {
    } else {
        let es1 = es.drop_last();
        let e = es.last();
        assert(unique_keys(es1));
        assert(es1.push(e) =~= es);
        lemma_prune_delta(es1, t);
        lemma_filter_unique(es1, |x: (Address, int)| x.1 != 0);
        assert(!has_key(es1, e.0)) by {
            if has_key(es1, e.0) {
                let j = key_at(es1, e.0);
                assert(es[j].0 == es[es.len() - 1].0);
            }
        };
        assert(!has_key(prune_entries(es1), e.0)) by {
            if has_key(prune_entries(es1), e.0) {
                lemma_filter_keys(es1, |x: (Address, int)| x.1 != 0, e.0);
            }
        };
        if e.1 != 0 {
            assert(prune_entries(es) == prune_entries(es1).push(e));
            if t == e.0 {
                lemma_key_at_unique_push(prune_entries(es1), e.0, e.1);
                lemma_key_at_unique_push(es1, e.0, e.1);
                assert(val_of(es, t) == e.1) by {
                    lemma_unique_push_generic(es1, e.0, e.1);
                    lemma_key_at_unique(es, t, es.len() - 1);
                };
            } else {
                lemma_unique_push_generic(prune_entries(es1), e.0, e.1);
                lemma_delta_push(prune_entries(es1), e, t);
                lemma_delta_push(es1, e, t);
            }
        } else {
            assert(prune_entries(es) == prune_entries(es1));
            if t == e.0 {
                lemma_key_at_unique(es, t, es.len() - 1);
                assert(delta_of(es, t) == 0);
                assert(delta_of(prune_entries(es1), t) == delta_of(es1, t));
                assert(delta_of(es1, t) == 0) by {
                    if has_key(es1, t) {
                        let j = key_at(es1, t);
                        assert(es[j].0 == es[es.len() - 1].0);
                    }
                };
            } else {
                lemma_delta_push(es1, e, t);
            }
        }
    }
}

/// One step of `prune_sheet` at the back of a sheet.
pub proof fn lemma_prune_sheet_push(s: Sheet, p: (Address, Seq<(Address, int)>))
    ensures
        prune_sheet(s.push(p)) == (if prune_entries(p.1).len() != 0 {
            prune_sheet(s).push((p.0, prune_entries(p.1)))
        } else {
            prune_sheet(s)
        }),
{
    let f = |q: (Address, Seq<(Address, int)>)| (q.0, prune_entries(q.1));
    let pr = |q: (Address, Seq<(Address, int)>)| q.1.len() != 0;
    assert(s.push(p).map_values(f) =~= s.map_values(f).push(f(p)));
    lemma_filter_push(s.map_values(f), pr, f(p));
}

/// Pruning does not change any token's sum: only zero deltas leave.
pub proof fn lemma_prune_sum(s: Sheet, t: Address)
    requires
        sheet_wf(s),
    ensures
        token_sum(prune_sheet(s), t) == token_sum(s, t),
    decreases s.len(),
{
    if s.len() == 0 {
        lemma_prune_sheet_empty();
    } else {
        let s1 = s.drop_last();
        let p = s.last();
        assert(sheet_wf(s1)) by {
            assert(forall|i: int| 0 <= i < s1.len() ==> s1[i] == s[i]);
        };
        assert(unique_keys(p.1)) by {
            assert(p == s[s.len() - 1]);
        };
        lemma_prune_sum(s1, t);
        assert(s1.push(p) =~= s);
        lemma_prune_sheet_push(s1, p);
        lemma_prune_delta(p.1, t);
        if prune_entries(p.1).len() != 0 {
            lemma_token_sum_push(prune_sheet(s1), (p.0, prune_entries(p.1)), t);
        } else {
            assert(delta_of(prune_entries(p.1), t) == 0) by {
                if has_key(prune_entries(p.1), t) {
                    let j = key_at(prune_entries(p.1), t);
                }
            };
        }
    }
}

/// Conservation: over the sheet a transfer list builds, each token's deltas
/// sum to the net the zero address minted minus burned; with no mint or burn
/// they sum to zero.
pub proof fn lemma_conservation(ts: Seq<Transfer>, t: Address)
    ensures
        token_sum(
            prune_sheet(apply_transfers(Seq::<(Address, Seq<(Address, int)>)>::empty(), ts)),
            t,
        ) == net_mint(ts, t),
        (forall|i: int|
            0 <= i < ts.len() ==> (#[trigger] ts[i].from) != Address::spec_zero()
                && ts[i].to != Address::spec_zero()) ==> token_sum(
            prune_sheet(apply_transfers(Seq::<(Address, Seq<(Address, int)>)>::empty(), ts)),
            t,
        ) == 0,
    decreases ts.len(),
{
    let empty = Seq::<(Address, Seq<(Address, int)>)>::empty();
    assert(sheet_wf(empty));
    lemma_apply_transfers_sum(empty, ts, t);
    lemma_prune_sum(apply_transfers(empty, ts), t);
    assert(net_mint(ts, t) == 0 <== forall|i: int|
        0 <= i < ts.len() ==> (#[trigger] ts[i].from) != Address::spec_zero() && ts[i].to
            != Address::spec_zero()) by {
        lemma_net_mint_zero(ts, t);
    };
}

/// With no mint or burn in the list, the net is zero.
proof fn lemma_net_mint_zero(ts: Seq<Transfer>, t: Address)
    ensures
        (forall|i: int|
            0 <= i < ts.len() ==> (#[trigger] ts[i].from) != Address::spec_zero() && ts[i].to
                != Address::spec_zero()) ==> net_mint(ts, t) == 0,
    decreases ts.len(),
{
    if ts.len() > 0 {
        lemma_net_mint_zero(ts.subrange(1, ts.len() as int), t);
        if forall|i: int|
            0 <= i < ts.len() ==> (#[trigger] ts[i].from) != Address::spec_zero() && ts[i].to
                != Address::spec_zero() {
            assert(forall|i: int|
                0 <= i < ts.subrange(1, ts.len() as int).len() ==> (#[trigger] ts.subrange(
                    1,
                    ts.len() as int,
                )[i]).from != Address::spec_zero() && ts.subrange(1, ts.len() as int)[i].to
                    != Address::spec_zero());
            assert(transfer_sum_effect(ts[0], t) == 0);
        }
    }
}

} // verus!

verus! {

impl BalanceChange {
    /// An identical copy of the table.
    pub fn duplicate(&self) -> (r: BalanceChange)
        ensures
            r@ == self@,
    {
        let n = self.entries.len();
        let mut out: Vec<(Address, I256)> = Vec::new();
        let mut i: usize = 0;
        while i < n
            invariant
                n == self.entries@.len(),
                i <= n,
                out@ == self.entries@.subrange(0, i as int),
            decreases n - i,
        {
            out.push(self.entries[i]);
            proof {
                assert(self.entries@.subrange(0, i + 1 as int) =~= self.entries@.subrange(
                    0,
                    i as int,
                ).push(self.entries@[i as int]));
            }
            i = i + 1;
        }
        proof {
            assert(self.entries@.subrange(0, n as int) =~= self.entries@);
        }
        BalanceChange { entries: out }
    }
}

impl BalanceChanges {
    /// Append a fresh account with its table.
    pub(crate) fn push_account(&mut self, a: Address, bc: BalanceChange)
        requires
            old(self).wf(),
            !has_key(old(self)@, a),
            unique_keys(bc@),
            a != Address::spec_zero(),
        ensures
            final(self).wf(),
            final(self)@ == old(self)@.push((a, bc@)),
    {
        proof {
            let s = self@;
            let s2 = s.push((a, bc@));
            assert forall|i: int, j: int| 0 <= i < j < s2.len() implies #[trigger] s2[i].0
                != #[trigger] s2[j].0 by {
                if j == s.len() {
                    assert(s2[i].0 == s[i].0);
                    assert(has_key(s, s[i].0));
                }
            }
            assert(forall|i: int| 0 <= i < s.len() ==> s2[i] == s[i]);
        }
        self.accounts.push((a, bc));
        proof {
            assert(self@ =~= old(self)@.push((a, bc@)));
        }
    }
}

} // verus!
