//! Wallet configuration: the wallets to watch, the channels they alert to,
//! and the per-wallet context the engine reads.

use vstd::prelude::*;
use crate::types::{Address, EngineError};

verus! {

/// Where a channel's alerts go.
#[derive(Clone)]
pub struct AlertTo {
    pub bot_token: String,
    pub chat_id: String,
    pub thread_id: Option<String>,
}

/// One configured wallet.
#[derive(Clone)]
pub struct Wallet {
    pub name: String,
    pub address: Address,
    pub builder: Option<Address>,
    pub other_addresses: Vec<Address>,
    pub chains: Vec<String>,
    pub include_recipient: bool,
}

/// A channel: an alert target and the wallets it watches.
#[derive(Clone)]
pub struct Channel {
    pub alert: AlertTo,
    pub wallets: Vec<Wallet>,
}

/// The whole configuration: chain name to RPC URL, and the channels.
pub struct Config {
    pub chains: Vec<(String, String)>,
    pub channels: Vec<Channel>,
}

/// A wallet with its precomputed involved set: the primary address, the
/// builder when set, and the auxiliary addresses, in that order.
#[derive(Clone)]
pub struct WalletWithContext {
    pub name: String,
    pub address: Address,
    pub builder: Option<Address>,
    pub include_recipient: bool,
    pub alert_to: AlertTo,
    /// The precomputed involved set; `new` fills it, `wf` pins its shape.
    pub involved_wallets: Vec<Address>,
}

/// The involved set a wallet's fields give rise to.
pub open spec fn spec_involved_of(
    address: Address,
    builder: Option<Address>,
    others: Seq<Address>,
) -> Seq<Address> {
    seq![address] + (match builder {
        Some(b) => seq![b],
        None => Seq::<Address>::empty(),
    }) + others
}

impl WalletWithContext {
    /// The involved set, as stored.
    pub open spec fn spec_involved(&self) -> Seq<Address> {
        self.involved_wallets@
    }

    /// The involved set is the primary, the builder when set, then the
    /// auxiliary addresses.
    pub open spec fn wf(&self) -> bool {
        &&& self.spec_involved().len() >= 1
        &&& self.spec_involved()[0] == self.address
        &&& exists|others: Seq<Address>|
            self.spec_involved() == spec_involved_of(self.address, self.builder, others)
    }

    pub fn new(
        name: String,
        address: Address,
        builder: Option<Address>,
        other_addresses: Vec<Address>,
        include_recipient: bool,
        alert_to: AlertTo,
    ) -> (r: WalletWithContext)
        ensures
            r.name == name,
            r.address == address,
            r.builder == builder,
            r.include_recipient == include_recipient,
            r.alert_to == alert_to,
            r.spec_involved() == spec_involved_of(address, builder, other_addresses@),
            r.wf(),
    {
        let mut involved_wallets: Vec<Address> = Vec::new();
        involved_wallets.push(address);
        match &builder {
            Some(b) => {
                involved_wallets.push(*b);
            },
            None => {},
        }
        let n = other_addresses.len();
        let mut i: usize = 0;
        let ghost head = involved_wallets@;
        while i < n
            invariant
                n == other_addresses@.len(),
                i <= n,
                involved_wallets@ == head + other_addresses@.subrange(0, i as int),
            decreases n - i,
        {
            involved_wallets.push(other_addresses[i]);
            proof {
                assert(head + other_addresses@.subrange(0, i + 1 as int) =~= (head
                    + other_addresses@.subrange(0, i as int)).push(other_addresses@[i as int]));
            }
            i = i + 1;
        }
        proof {
            assert(other_addresses@.subrange(0, n as int) =~= other_addresses@);
            assert(head =~= seq![address] + (match builder {
                Some(b) => seq![b],
                None => Seq::<Address>::empty(),
            }));
        }
        let r = WalletWithContext {
            name,
            address,
            builder,
            include_recipient,
            alert_to,
            involved_wallets,
        };
        proof {
            assert(r.spec_involved() == spec_involved_of(address, builder, other_addresses@));
            assert(r.spec_involved()[0] == address);
            assert(exists|o: Seq<Address>|
                r.spec_involved() == spec_involved_of(r.address, r.builder, o)) by {
                assert(r.spec_involved() == spec_involved_of(r.address, r.builder,
                    other_addresses@));
            };
        }
        r
    }

    /// The addresses whose balance changes count as the wallet's own.
    pub fn involved_wallets(&self) -> (r: &Vec<Address>)
        ensures
            r@ == self.spec_involved(),
    {
        &self.involved_wallets
    }
}

impl Config {
    /// A chain name is configured.
    pub open spec fn spec_has_chain(&self, name: Seq<char>) -> bool {
        exists|i: int| 0 <= i < self.chains@.len() && (#[trigger] self.chains@[i]).0@ == name
    }

    /// The configuration is valid: every channel has at least one wallet,
    /// and every chain a wallet names is configured.
    pub open spec fn spec_valid(&self) -> bool {
        forall|c: int|
            0 <= c < self.channels@.len() ==> {
                let ch = #[trigger] self.channels@[c];
                ch.wallets@.len() > 0 && forall|w: int, k: int|
                    0 <= w < ch.wallets@.len() && 0 <= k < ch.wallets@[w].chains@.len()
                        ==> self.spec_has_chain((#[trigger] ch.wallets@[w].chains@[k])@)
            }
    }

    fn has_chain(&self, name: &String) -> (r: bool)
        ensures
            r == self.spec_has_chain(name@),
    {
        let n = self.chains.len();
        let mut i: usize = 0;
        while i < n
            invariant
                n == self.chains@.len(),
                i <= n,
                forall|j: int| 0 <= j < i ==> (#[trigger] self.chains@[j]).0@ != name@,
            decreases n - i,
        {
            if self.chains[i].0 == *name {
                return true;
            }
            i = i + 1;
        }
        false
    }

    /// Check the configuration: `Err(ConfigInvalid)` exactly when a channel
    /// has no wallets or a wallet names an unconfigured chain.
    pub fn validate(&self) -> (r: Result<(), EngineError>)
        ensures
            match r {
                Ok(()) => self.spec_valid(),
                Err(e) => e == EngineError::ConfigInvalid && !self.spec_valid(),
            },
    {
        let nc = self.channels.len();
        let mut c: usize = 0;
        while c < nc
            invariant
                nc == self.channels@.len(),
                c <= nc,
                forall|j: int|
                    0 <= j < c ==> {
                        let ch = #[trigger] self.channels@[j];
                        ch.wallets@.len() > 0 && forall|w: int, k: int|
                            0 <= w < ch.wallets@.len() && 0 <= k < ch.wallets@[w].chains@.len()
                                ==> self.spec_has_chain((#[trigger] ch.wallets@[w].chains@[k])@)
                    },
            decreases nc - c,
        {
            let channel = &self.channels[c];
            if channel.wallets.is_empty() {
                return Err(EngineError::ConfigInvalid);
            }
            let nw = channel.wallets.len();
            let mut w: usize = 0;
            while w < nw
                invariant
                    0 <= c < self.channels@.len(),
                    channel == &self.channels@[c as int],
                    nw == channel.wallets@.len(),
                    w <= nw,
                    forall|x: int, k: int|
                        0 <= x < w && 0 <= k < channel.wallets@[x].chains@.len()
                            ==> self.spec_has_chain((#[trigger] channel.wallets@[x].chains@[k])@),
                decreases nw - w,
            {
                let wallet = &channel.wallets[w];
                let nk = wallet.chains.len();
                let mut k: usize = 0;
                while k < nk
                    invariant
                        0 <= c < self.channels@.len(),
                        0 <= w < self.channels@[c as int].wallets@.len(),
                        channel == &self.channels@[c as int],
                        wallet == &channel.wallets@[w as int],
                        nk == wallet.chains@.len(),
                        k <= nk,
                        forall|j: int|
                            0 <= j < k ==> self.spec_has_chain(
                                (#[trigger] wallet.chains@[j])@,
                            ),
                    decreases nk - k,
                {
                    if !self.has_chain(&wallet.chains[k]) {
                        return Err(EngineError::ConfigInvalid);
                    }
                    k = k + 1;
                }
                w = w + 1;
            }
            c = c + 1;
        }
        Ok(())
    }
}

} // verus!

verus! {

/// A context carries exactly a wallet's data, the channel's alert target,
/// and the wallet's precomputed involved set.
pub open spec fn context_matches(c: WalletWithContext, w: Wallet, alert: AlertTo) -> bool {
    &&& c.name@ == w.name@
    &&& c.address == w.address
    &&& c.builder == w.builder
    &&& c.include_recipient == w.include_recipient
    &&& c.alert_to.bot_token@ == alert.bot_token@
    &&& c.alert_to.chat_id@ == alert.chat_id@
    &&& (match (c.alert_to.thread_id, alert.thread_id) {
        (Some(a), Some(b)) => a@ == b@,
        (None, None) => true,
        _ => false,
    })
    &&& c.spec_involved() == spec_involved_of(w.address, w.builder, w.other_addresses@)
    &&& c.wf()
}

/// The wallet listens on the chain: named explicitly, or on all chains when
/// its list is empty.
pub open spec fn spec_listens(w: Wallet, name: Seq<char>) -> bool {
    w.chains@.len() == 0 || exists|j: int|
        0 <= j < w.chains@.len() && (#[trigger] w.chains@[j])@ == name
}

/// The (channel, wallet) indices listening on a chain, in configuration
/// order, within one channel.
pub open spec fn spec_wallet_hits(ws: Seq<Wallet>, ci: int, name: Seq<char>) -> Seq<(int, int)>
    decreases ws.len(),
{
    if ws.len() == 0 {
        Seq::empty()
    } else {
        spec_wallet_hits(ws.drop_last(), ci, name) + (if spec_listens(ws.last(), name) {
            seq![(ci, ws.len() - 1)]
        } else {
            Seq::<(int, int)>::empty()
        })
    }
}

/// The (channel, wallet) indices listening on a chain, in configuration
/// order.
pub open spec fn spec_bucket(channels: Seq<Channel>, name: Seq<char>) -> Seq<(int, int)>
    decreases channels.len(),
{
    if channels.len() == 0 {
        Seq::empty()
    } else {
        spec_bucket(channels.drop_last(), name) + spec_wallet_hits(
            channels.last().wallets@,
            channels.len() - 1,
            name,
        )
    }
}

fn copy_addresses(v: &Vec<Address>) -> (r: Vec<Address>)
    ensures
        r@ == v@,
{
    let n = v.len();
    let mut out: Vec<Address> = Vec::new();
    let mut i: usize = 0;
    while i < n
        invariant
            n == v@.len(),
            i <= n,
            out@ == v@.subrange(0, i as int),
        decreases n - i,
    {
        out.push(v[i]);
        proof {
            assert(v@.subrange(0, i + 1 as int) =~= v@.subrange(0, i as int).push(v@[i as int]));
        }
        i = i + 1;
    }
    proof {
        assert(v@.subrange(0, n as int) =~= v@);
    }
    out
}

fn listens(w: &Wallet, name: &String) -> (r: bool)
    ensures
        r == spec_listens(*w, name@),
{
    if w.chains.is_empty() {
        return true;
    }
    let n = w.chains.len();
    let mut j: usize = 0;
    while j < n
        invariant
            n == w.chains@.len(),
            j <= n,
            forall|i: int| 0 <= i < j ==> (#[trigger] w.chains@[i])@ != name@,
        decreases n - j,
    {
        if w.chains[j] == *name {
            return true;
        }
        j = j + 1;
    }
    false
}

/// The bucket rows match the hit list: one context per hit, each carrying
/// the named wallet's data.
pub open spec fn bucket_matches(
    b: Seq<WalletWithContext>,
    hits: Seq<(int, int)>,
    channels: Seq<Channel>,
) -> bool {
    &&& b.len() == hits.len()
    &&& forall|l: int| #![trigger hits[l]]
        0 <= l < hits.len() ==> {
            let cx = hits[l].0;
            let wx = hits[l].1;
            &&& 0 <= cx < channels.len()
            &&& 0 <= wx < channels[cx].wallets@.len()
            &&& context_matches(b[l], channels[cx].wallets@[wx], channels[cx].alert)
        }
}

proof fn lemma_bucket_matches_push(
    b: Seq<WalletWithContext>,
    hits: Seq<(int, int)>,
    channels: Seq<Channel>,
    c: WalletWithContext,
    cx: int,
    wx: int,
)
    requires
        bucket_matches(b, hits, channels),
        0 <= cx < channels.len(),
        0 <= wx < channels[cx].wallets@.len(),
        context_matches(c, channels[cx].wallets@[wx], channels[cx].alert),
    ensures
        bucket_matches(b.push(c), hits.push((cx, wx)), channels),
{
    let b2 = b.push(c);
    let h2 = hits.push((cx, wx));
    assert forall|l: int| #![trigger h2[l]] 0 <= l < h2.len() implies {
        let cl = h2[l].0;
        let wl = h2[l].1;
        &&& 0 <= cl < channels.len()
        &&& 0 <= wl < channels[cl].wallets@.len()
        &&& context_matches(b2[l], channels[cl].wallets@[wl], channels[cl].alert)
    } by {
        if l < hits.len() {
            assert(b2[l] == b[l]);
            assert(h2[l] == hits[l]);
        } else {
            assert(b2[l] == c);
            assert(h2[l] == (cx, wx));
        }
    }
}

impl Config {
    /// One bucket per configured chain, in configuration order: the contexts
    /// of every wallet listening on that chain — all chains, for a wallet
    /// whose chain list is empty — in channel and wallet order.
    pub fn to_wallet_with_context_by_chain(&self) -> (r: Vec<(String, Vec<WalletWithContext>)>)
        ensures
            r@.len() == self.chains@.len(),
            forall|k: int| 0 <= k < r@.len() ==> (#[trigger] r@[k]).0@ == self.chains@[k].0@,
            forall|k: int|
                0 <= k < r@.len() ==> bucket_matches(
                    (#[trigger] r@[k]).1@,
                    spec_bucket(self.channels@, self.chains@[k].0@),
                    self.channels@,
                ),
    {
        let nk = self.chains.len();
        let mut out: Vec<(String, Vec<WalletWithContext>)> = Vec::new();
        let mut k: usize = 0;
        while k < nk
            invariant
                nk == self.chains@.len(),
                k <= nk,
                out@.len() == k,
                forall|x: int| 0 <= x < k ==> (#[trigger] out@[x]).0@ == self.chains@[x].0@,
                forall|x: int|
                    0 <= x < k ==> bucket_matches(
                        (#[trigger] out@[x]).1@,
                        spec_bucket(self.channels@, self.chains@[x].0@),
                        self.channels@,
                    ),
            decreases nk - k,
        {
            let name = &self.chains[k].0;
            let bucket = self.bucket_for(name);
            let key = name.clone();
            out.push((key, bucket));
            k = k + 1;
        }
        out
    }

    /// The contexts of every wallet listening on the named chain.
    fn bucket_for(&self, name: &String) -> (r: Vec<WalletWithContext>)
        ensures
            bucket_matches(r@, spec_bucket(self.channels@, name@), self.channels@),
    {
        let nc = self.channels.len();
        let mut bucket: Vec<WalletWithContext> = Vec::new();
        let mut ci: usize = 0;
        proof {
            assert(self.channels@.subrange(0, 0) =~= Seq::<Channel>::empty());
        }
        while ci < nc
            invariant
                nc == self.channels@.len(),
                ci <= nc,
                bucket_matches(
                    bucket@,
                    spec_bucket(self.channels@.subrange(0, ci as int), name@),
                    self.channels@,
                ),
            decreases nc - ci,
        {
            let ghost done0 = spec_bucket(self.channels@.subrange(0, ci as int), name@);
            let channel = &self.channels[ci];
            let nw = channel.wallets.len();
            let mut wi: usize = 0;
            proof {
                assert(channel.wallets@.subrange(0, 0) =~= Seq::<Wallet>::empty());
                assert(spec_wallet_hits(channel.wallets@.subrange(0, 0), ci as int, name@)
                    =~= Seq::<(int, int)>::empty());
                assert(done0 + spec_wallet_hits(
                    channel.wallets@.subrange(0, 0),
                    ci as int,
                    name@,
                ) =~= done0);
            }
            while wi < nw
                invariant
                    nc == self.channels@.len(),
                    0 <= ci < nc,
                    channel == &self.channels@[ci as int],
                    nw == channel.wallets@.len(),
                    wi <= nw,
                    done0 == spec_bucket(self.channels@.subrange(0, ci as int), name@),
                    bucket_matches(
                        bucket@,
                        done0 + spec_wallet_hits(
                            channel.wallets@.subrange(0, wi as int),
                            ci as int,
                            name@,
                        ),
                        self.channels@,
                    ),
                decreases nw - wi,
            {
                let ghost hits0 = done0 + spec_wallet_hits(
                    channel.wallets@.subrange(0, wi as int),
                    ci as int,
                    name@,
                );
                let w = &channel.wallets[wi];
                proof {
                    assert(channel.wallets@.subrange(0, wi + 1 as int).drop_last()
                        =~= channel.wallets@.subrange(0, wi as int));
                    assert(channel.wallets@.subrange(0, wi + 1 as int).last()
                        == channel.wallets@[wi as int]);
                }
                if listens(w, name) {
                    let ctx = WalletWithContext::new(
                        w.name.clone(),
                        w.address,
                        w.builder,
                        copy_addresses(&w.other_addresses),
                        w.include_recipient,
                        channel.alert.clone2(),
                    );
                    proof {
                        assert(context_matches(
                            ctx,
                            self.channels@[ci as int].wallets@[wi as int],
                            self.channels@[ci as int].alert,
                        ));
                        lemma_bucket_matches_push(
                            bucket@,
                            hits0,
                            self.channels@,
                            ctx,
                            ci as int,
                            wi as int,
                        );
                        assert(done0 + spec_wallet_hits(
                            channel.wallets@.subrange(0, wi + 1 as int),
                            ci as int,
                            name@,
                        ) =~= hits0.push((ci as int, wi as int)));
                    }
                    bucket.push(ctx);
                } else {
                    proof {
                        assert(done0 + spec_wallet_hits(
                            channel.wallets@.subrange(0, wi + 1 as int),
                            ci as int,
                            name@,
                        ) =~= hits0);
                    }
                }
                wi = wi + 1;
            }
            proof {
                assert(channel.wallets@.subrange(0, nw as int) =~= channel.wallets@);
                assert(self.channels@.subrange(0, ci + 1 as int).drop_last()
                    =~= self.channels@.subrange(0, ci as int));
                assert(self.channels@.subrange(0, ci + 1 as int).last()
                    == self.channels@[ci as int]);
                assert(spec_bucket(self.channels@.subrange(0, ci + 1 as int), name@) == done0
                    + spec_wallet_hits(channel.wallets@, ci as int, name@));
            }
            ci = ci + 1;
        }
        proof {
            assert(self.channels@.subrange(0, nc as int) =~= self.channels@);
        }
        bucket
    }
}

impl AlertTo {
    /// A field-for-field copy.
    pub fn clone2(&self) -> (r: AlertTo)
        ensures
            r.bot_token@ == self.bot_token@,
            r.chat_id@ == self.chat_id@,
            (match (r.thread_id, self.thread_id) {
                (Some(a), Some(b)) => a@ == b@,
                (None, None) => true,
                _ => false,
            }),
    {
        AlertTo {
            bot_token: self.bot_token.clone(),
            chat_id: self.chat_id.clone(),
            thread_id: match &self.thread_id {
                Some(t) => Some(t.clone()),
                None => None,
            },
        }
    }
}

} // verus!
