//! Per-wallet state: lock state, coins, transactions awaiting confirmation,
//! confirmations seen on chain and the transaction history.
use vstd::prelude::*;
use crate::crypto::{blake3_of, hash_single};
use crate::error::{TransactionError, WalletAccessError};
use crate::select::{
    add_new, contains_id, copy_ids, datas, denoms_of, pairs_view, denoms_for, fee_part, lemma_value_in_le_total, sum_denom, value_in, value_total,
};
use crate::tx::{Signer, address_of, covenant_address, tx_hash};
use crate::types::{
    Address, AnnCoinID, CoinData, CoinDataView, CoinID, Denom, HashVal, Transaction, TransactionStatus,
    TransactionView, TxBalance, TxHash, NetID, WalletSummary,
};

verus! {

/// A coin the wallet owns, with the height that confirmed it.
pub struct CoinRecord {
    pub id: CoinID,
    pub data: CoinData,
    pub height: u64,
}

/// A sent transaction awaiting confirmation, and the height after which it
/// is given up.
pub struct PendingEntry {
    pub hash: TxHash,
    pub tx: Transaction,
    pub timeout: u64,
}

pub type CoinRecordView = (CoinID, CoinDataView, u64);

pub type PendingView = (TxHash, TransactionView, u64);

pub open spec fn record_views(s: Seq<CoinRecord>) -> Seq<CoinRecordView> {
    s.map_values(|r: CoinRecord| (r.id, r.data@, r.height))
}

pub open spec fn pending_views(s: Seq<PendingEntry>) -> Seq<PendingView> {
    s.map_values(|p: PendingEntry| (p.hash, p.tx@, p.timeout))
}

pub open spec fn history_views(s: Seq<(TxHash, Transaction)>) -> Seq<(TxHash, TransactionView)> {
    s.map_values(|e: (TxHash, Transaction)| (e.0, e.1@))
}

/// The state of a wallet as its contracts speak of it.
pub struct WalletView {
    pub address: Address,
    pub covenant: Seq<u8>,
    pub password_hash: HashVal,
    /// The secret key while unlocked; empty while locked.
    pub secret: Seq<u8>,
    pub locked: bool,
    /// Owned coins no sent transaction spends.
    pub coins: Seq<CoinRecordView>,
    /// Owned coins spent by transactions awaiting confirmation.
    pub spent: Seq<CoinRecordView>,
    pub pending: Seq<PendingView>,
    /// Heights at which coins created by tracked transactions were confirmed.
    pub seen: Seq<(CoinID, u64)>,
    pub history: Seq<(TxHash, TransactionView)>,
    /// Coins spent by sent transactions that were since confirmed.
    pub consumed: Seq<CoinID>,
}

/// One wallet's ledger. Every change goes through `&mut self`, so the
/// changes of one wallet are serialized.
pub struct WalletLedger {
    address: Address,
    covenant: Vec<u8>,
    password_hash: HashVal,
    secret: Option<[u8; 64]>,
    coins: Vec<CoinRecord>,
    spent: Vec<CoinRecord>,
    pending: Vec<PendingEntry>,
    seen: Vec<(CoinID, u64)>,
    history: Vec<(TxHash, Transaction)>,
    consumed: Vec<CoinID>,
}

impl View for WalletLedger {
    type V = WalletView;

    closed spec fn view(&self) -> WalletView {
        WalletView {
            address: self.address,
            covenant: self.covenant@,
            password_hash: self.password_hash,
            secret: match self.secret {
                Some(k) => k@,
                None => seq![],
            },
            locked: self.secret is None,
            coins: record_views(self.coins@),
            spent: record_views(self.spent@),
            pending: pending_views(self.pending@),
            seen: self.seen@,
            history: history_views(self.history@),
            consumed: self.consumed@,
        }
    }
}

/// Two entries awaiting confirmation never spend the same coin.
pub open spec fn pending_disjoint(p: Seq<PendingView>) -> bool {
    forall|i: int, j: int, c: CoinID|
        0 <= i < p.len() && 0 <= j < p.len() && i != j && #[trigger] p[i].1.inputs.contains(c)
            ==> !#[trigger] p[j].1.inputs.contains(c)
}

/// No entry awaiting confirmation spends a coin that a confirmed
/// transaction spent.
pub open spec fn settled_disjoint(p: Seq<PendingView>, consumed: Seq<CoinID>) -> bool {
    forall|i: int, c: CoinID|
        0 <= i < p.len() && #[trigger] p[i].1.inputs.contains(c) ==> !consumed.contains(c)
}

/// What the wallet can hold of a transaction: at most 256 outputs, and an
/// output total and fee that a signed 128-bit balance holds.
pub open spec fn trackable(tx: TransactionView) -> bool {
    tx.outputs.len() <= 256 && value_total(tx.outputs) + tx.fee <= i128::MAX
}

/// A wallet just created for `covenant` and `password`: its address is the
/// covenant's hash, `password` unlocks it, it is locked, and it has no coin,
/// transaction or confirmation.
pub open spec fn fresh_wallet(w: WalletView, covenant: Seq<u8>, password: Seq<u8>) -> bool {
    &&& w.address == covenant_address(covenant)
    &&& w.covenant == covenant
    &&& w.password_hash == blake3_of(password)
    &&& w.locked
    &&& w.secret.len() == 0
    &&& w.coins.len() == 0
    &&& w.spent.len() == 0
    &&& w.pending.len() == 0
    &&& w.seen.len() == 0
    &&& w.history.len() == 0
    &&& w.consumed.len() == 0
}

impl WalletView {
    pub open spec fn wf(self) -> bool {
        &&& self.address == covenant_address(self.covenant)
        &&& self.locked ==> self.secret.len() == 0
        &&& !self.locked ==> self.secret.len() == 64
        &&& pending_disjoint(self.pending)
        &&& settled_disjoint(self.pending, self.consumed)
        &&& forall|i: int|
            0 <= i < self.pending.len() ==> (#[trigger] self.pending[i]).0 == tx_hash(self.pending[i].1)
                && trackable(self.pending[i].1)
        &&& forall|i: int|
            0 <= i < self.history.len() ==> (#[trigger] self.history[i]).0 == tx_hash(self.history[i].1)
                && trackable(self.history[i].1)
    }

    /// `self` locked: no secret key is held.
    pub open spec fn locked_view(self) -> WalletView {
        WalletView { locked: true, secret: seq![], ..self }
    }

    /// `self` unlocked with the secret key `sk`.
    pub open spec fn unlocked_view(self, sk: Seq<u8>) -> WalletView {
        WalletView { locked: false, secret: sk, ..self }
    }
}

impl WalletLedger {
    pub closed spec fn inv(&self) -> bool {
        self@.wf()
    }

    /// A new wallet, locked, owning nothing, whose address is the hash of
    /// `covenant` and which `password` unlocks.
    pub fn new(covenant: Vec<u8>, password: &[u8]) -> (r: WalletLedger)
        ensures
            r.inv(),
            r@.address == covenant_address(covenant@),
            r@.covenant == covenant@,
            r@.password_hash == blake3_of(password@),
            r@.locked,
            r@.coins.len() == 0,
            r@.spent.len() == 0,
            r@.pending.len() == 0,
            r@.seen.len() == 0,
            r@.history.len() == 0,
            r@.consumed.len() == 0,
            fresh_wallet(r@, covenant@, password@),
    {
        let address = address_of(&covenant);
        let password_hash = hash_single(password);
        let r = WalletLedger {
            address,
            covenant,
            password_hash,
            secret: None,
            coins: Vec::new(),
            spent: Vec::new(),
            pending: Vec::new(),
            seen: Vec::new(),
            history: Vec::new(),
            consumed: Vec::new(),
        };
        proof {
            assert(r@.pending.len() == 0);
            assert(r@.history.len() == 0);
        }
        r
    }

    pub fn address(&self) -> (r: Address)
        ensures
            r == self@.address,
    {
        self.address
    }

    pub fn is_locked(&self) -> (r: bool)
        ensures
            r == self@.locked,
    {
        self.secret.is_none()
    }

    /// Discards the secret key held in memory.
    pub fn lock(&mut self)
        requires
            old(self).inv(),
        ensures
            final(self).inv(),
            final(self)@ == old(self)@.locked_view(),
            final(self)@ == step(old(self)@, LedgerStep::Lock),
    {
        self.secret = None;
        proof {
            assert(self@ =~= old(self)@.locked_view());
        }
    }

    /// Unlocks the wallet when `password` is its password, holding `sk`,
    /// the secret key that the wallet's storage gives up for that password;
    /// otherwise fails with `Locked` and changes nothing.
    pub fn unlock(&mut self, password: &[u8], sk: [u8; 64]) -> (r: Result<(), WalletAccessError>)
        requires
            old(self).inv(),
        ensures
            final(self).inv(),
            blake3_of(password@) == old(self)@.password_hash ==> r is Ok && final(self)@
                == old(self)@.unlocked_view(sk@),
            blake3_of(password@) != old(self)@.password_hash ==> r == Err::<(), WalletAccessError>(
                WalletAccessError::Locked,
            ) && final(self)@ == old(self)@,
            final(self)@ == step(old(self)@, LedgerStep::Unlock(password@, sk@)),
    {
        let h = hash_single(password);
        if h == self.password_hash {
            self.secret = Some(sk);
            proof {
                assert(self@ =~= old(self)@.unlocked_view(sk@));
            }
            Ok(())
        } else {
            Err(WalletAccessError::Locked)
        }
    }

    /// The secret key held in memory, when `password` is the wallet's
    /// password and the wallet is unlocked.
    pub fn export_sk(&self, password: &[u8]) -> (r: Result<[u8; 64], WalletAccessError>)
        requires
            self.inv(),
        ensures
            blake3_of(password@) == self@.password_hash && !self@.locked ==> (r matches Ok(k) && k@
                == self@.secret),
            blake3_of(password@) != self@.password_hash || self@.locked ==> r == Err::<
                [u8; 64],
                WalletAccessError,
            >(WalletAccessError::Locked),
    {
        let h = hash_single(password);
        if h == self.password_hash {
            match self.secret {
                Some(k) => Ok(k),
                None => Err(WalletAccessError::Locked),
            }
        } else {
            Err(WalletAccessError::Locked)
        }
    }

    /// The wallet's own signer: its key while unlocked, none while locked.
    pub fn signer(&self) -> (r: Signer)
        requires
            self.inv(),
        ensures
            r.covenant@ == self@.covenant,
            self@.locked ==> r.key is None,
            !self@.locked ==> r.key is Some && r.key->Some_0@ == self@.secret,
    {
        Signer { key: self.secret, covenant: self.covenant.clone() }
    }
}

pub open spec fn record_pairs(s: Seq<CoinRecordView>) -> Seq<(CoinID, CoinDataView)> {
    s.map_values(|r: CoinRecordView| (r.0, r.1))
}

/// The outputs of the transaction `h` that go to `addr`, with their identities.
pub open spec fn change_outputs(h: TxHash, outs: Seq<CoinDataView>, addr: Address) -> Seq<
    (CoinID, CoinDataView),
>
    decreases outs.len(),
{
    if outs.len() == 0 {
        seq![]
    } else {
        change_outputs(h, outs.drop_last(), addr) + if outs.last().covhash == addr {
            seq![(CoinID { txhash: h, index: (outs.len() - 1) as u8 }, outs.last())]
        } else {
            seq![]
        }
    }
}

/// Coins that transactions awaiting confirmation return to `addr`.
pub open spec fn pending_change(p: Seq<PendingView>, addr: Address) -> Seq<(CoinID, CoinDataView)>
    decreases p.len(),
{
    if p.len() == 0 {
        seq![]
    } else {
        pending_change(p.drop_last(), addr) + change_outputs(p.last().0, p.last().1.outputs, addr)
    }
}

/// The coins the wallet can count on: its unspent coins; with
/// `ignore_pending`, also those that transactions awaiting confirmation
/// spend; unless `confirmed_only`, also the change those transactions return.
pub open spec fn coin_mapping(w: WalletView, confirmed_only: bool, ignore_pending: bool) -> Seq<
    (CoinID, CoinDataView),
> {
    record_pairs(w.coins) + (if ignore_pending {
        record_pairs(w.spent)
    } else {
        seq![]
    }) + (if confirmed_only {
        seq![]
    } else {
        pending_change(w.pending, w.address)
    })
}

/// Records of `s` that `inputs` does not spend.
pub open spec fn unspent_by(s: Seq<CoinRecordView>, inputs: Seq<CoinID>) -> Seq<CoinRecordView>
    decreases s.len(),
{
    if s.len() == 0 {
        seq![]
    } else if inputs.contains(s.last().0) {
        unspent_by(s.drop_last(), inputs)
    } else {
        unspent_by(s.drop_last(), inputs).push(s.last())
    }
}

/// Records of `s` that `inputs` spends.
pub open spec fn spent_by(s: Seq<CoinRecordView>, inputs: Seq<CoinID>) -> Seq<CoinRecordView>
    decreases s.len(),
{
    if s.len() == 0 {
        seq![]
    } else if inputs.contains(s.last().0) {
        spent_by(s.drop_last(), inputs).push(s.last())
    } else {
        spent_by(s.drop_last(), inputs)
    }
}

/// Whether a transaction awaiting confirmation already spends `c`.
pub open spec fn spent_by_pending(w: WalletView, c: CoinID) -> bool {
    exists|i: int| 0 <= i < w.pending.len() && #[trigger] w.pending[i].1.inputs.contains(c)
}

/// Whether a transaction the wallet sent and has not given up spends `c`:
/// one awaiting confirmation, or one confirmed since.
pub open spec fn spent_before(w: WalletView, c: CoinID) -> bool {
    spent_by_pending(w, c) || w.consumed.contains(c)
}

/// The wallet after sending `tx`: it awaits confirmation until `timeout`,
/// the coins it spends move from the unspent coins to the spent ones, and it
/// joins the history.
pub open spec fn committed(w: WalletView, tx: TransactionView, timeout: u64) -> WalletView {
    WalletView {
        coins: unspent_by(w.coins, tx.inputs),
        spent: w.spent + spent_by(w.coins, tx.inputs),
        pending: w.pending.push((tx_hash(tx), tx, timeout)),
        history: w.history.push((tx_hash(tx), tx)),
        ..w
    }
}

fn copy_record(r: &CoinRecord) -> (c: CoinRecord)
    ensures
        (c.id, c.data@, c.height) == (r.id, r.data@, r.height),
{
    CoinRecord { id: r.id, data: r.data.duplicate(), height: r.height }
}

fn push_records(out: &mut Vec<(CoinID, CoinData)>, recs: &Vec<CoinRecord>)
    ensures
        pairs_view(final(out)@) == pairs_view(old(out)@) + record_pairs(record_views(recs@)),
{
    let ghost start = pairs_view(out@);
    let mut i: usize = 0;
    while i < recs.len()
        invariant
            i <= recs@.len(),
            pairs_view(out@) == start + record_pairs(record_views(recs@.subrange(0, i as int))),
        decreases recs@.len() - i,
    {
        let ghost before = pairs_view(out@);
        out.push((recs[i].id, recs[i].data.duplicate()));
        i = i + 1;
        proof {
            assert(pairs_view(out@) =~= before.push((recs@[i - 1].id, recs@[i - 1].data@)));
            assert(record_pairs(record_views(recs@.subrange(0, i as int))) =~= record_pairs(
                record_views(recs@.subrange(0, i - 1)),
            ).push((recs@[i - 1].id, recs@[i - 1].data@)));
            assert(pairs_view(out@) =~= start + record_pairs(record_views(recs@.subrange(0, i as int))));
        }
    }
    proof {
        assert(recs@.subrange(0, recs@.len() as int) =~= recs@);
    }
}

fn push_change(out: &mut Vec<(CoinID, CoinData)>, h: TxHash, outs: &Vec<CoinData>, addr: Address)
    requires
        outs@.len() <= 256,
    ensures
        pairs_view(final(out)@) == pairs_view(old(out)@) + change_outputs(h, datas(outs@), addr),
{
    let ghost start = pairs_view(out@);
    let ghost ds = datas(outs@);
    let mut k: usize = 0;
    while k < outs.len()
        invariant
            k <= outs@.len(),
            outs@.len() <= 256,
            ds == datas(outs@),
            pairs_view(out@) == start + change_outputs(h, ds.subrange(0, k as int), addr),
        decreases outs@.len() - k,
    {
        let ghost before = pairs_view(out@);
        proof {
            assert(ds.subrange(0, k + 1).drop_last() =~= ds.subrange(0, k as int));
        }
        if outs[k].covhash == addr {
            out.push((CoinID { txhash: h, index: k as u8 }, outs[k].duplicate()));
            proof {
                assert(pairs_view(out@) =~= before + seq![(CoinID { txhash: h, index: k as u8 }, ds[k as int])]);
            }
        }
        k = k + 1;
        proof {
            assert(pairs_view(out@) =~= start + change_outputs(h, ds.subrange(0, k as int), addr));
        }
    }
    proof {
        assert(ds.subrange(0, ds.len() as int) =~= ds);
    }
}

impl WalletLedger {
    /// The wallet's coins, filtered as `coin_mapping` describes.
    pub fn get_coin_mapping(&self, confirmed_only: bool, ignore_pending: bool) -> (r: Vec<(CoinID, CoinData)>)
        requires
            self.inv(),
        ensures
            pairs_view(r@) == coin_mapping(self@, confirmed_only, ignore_pending),
    {
        let mut out: Vec<(CoinID, CoinData)> = Vec::new();
        push_records(&mut out, &self.coins);
        if ignore_pending {
            push_records(&mut out, &self.spent);
        }
        let ghost mid = pairs_view(out@);
        if !confirmed_only {
            let mut i: usize = 0;
            while i < self.pending.len()
                invariant
                    i <= self.pending@.len(),
                    self.inv(),
                    pairs_view(out@) == mid + pending_change(
                        pending_views(self.pending@.subrange(0, i as int)),
                        self.address,
                    ),
                decreases self.pending@.len() - i,
            {
                proof {
                    assert(self@.pending[i as int].1 == self.pending@[i as int].tx@);
                    assert(trackable(self@.pending[i as int].1));
                    assert(pending_views(self.pending@.subrange(0, i + 1)).drop_last() =~= pending_views(
                        self.pending@.subrange(0, i as int),
                    ));
                }
                let e = &self.pending[i];
                push_change(&mut out, e.hash, &e.tx.outputs, self.address);
                i = i + 1;
                proof {
                    assert(pairs_view(out@) =~= mid + pending_change(
                        pending_views(self.pending@.subrange(0, i as int)),
                        self.address,
                    ));
                }
            }
            proof {
                assert(self.pending@.subrange(0, self.pending@.len() as int) =~= self.pending@);
            }
        }
        proof {
            assert(pairs_view(out@) =~= coin_mapping(self@, confirmed_only, ignore_pending));
        }
        out
    }
}

proof fn lemma_push_disjoint(p: Seq<PendingView>, e: PendingView)
    requires
        pending_disjoint(p),
        forall|c: CoinID, i: int|
            0 <= i < p.len() && e.1.inputs.contains(c) ==> !#[trigger] p[i].1.inputs.contains(c),
    ensures
        pending_disjoint(p.push(e)),
{
    let q = p.push(e);
    assert forall|i: int, j: int, c: CoinID|
        0 <= i < q.len() && 0 <= j < q.len() && i != j && #[trigger] q[i].1.inputs.contains(c) implies !#[trigger] q[j].1.inputs.contains(c) by {
        if i < p.len() && j < p.len() {
            assert(q[i] == p[i] && q[j] == p[j]);
        } else if i < p.len() {
            assert(q[i] == p[i]);
            assert(q[j] == e);
        } else {
            assert(q[i] == e);
            assert(q[j] == p[j]);
        }
    }
}

/// Whether `tx` can be tracked.
pub fn is_trackable(tx: &Transaction) -> (r: bool)
    ensures
        r == trackable(tx@),
{
    if tx.outputs.len() > 256 {
        return false;
    }
    let limit: u128 = i128::MAX as u128;
    if tx.fee > limit {
        proof {
            crate::select::lemma_value_total_nonneg(tx@.outputs);
        }
        return false;
    }
    let mut acc: u128 = tx.fee;
    let ghost os = tx@.outputs;
    let mut i: usize = 0;
    while i < tx.outputs.len()
        invariant
            i <= tx.outputs@.len(),
            os == tx@.outputs,
            acc == value_total(os.subrange(0, i as int)) + tx.fee,
            acc <= limit,
            limit == i128::MAX,
        decreases tx.outputs@.len() - i,
    {
        proof {
            assert(os.subrange(0, i + 1).drop_last() =~= os.subrange(0, i as int));
        }
        if tx.outputs[i].value > limit - acc {
            proof {
                crate::select::lemma_value_total_prefix(os, i + 1);
            }
            return false;
        }
        acc = acc + tx.outputs[i].value;
        i = i + 1;
    }
    proof {
        assert(os.subrange(0, os.len() as int) =~= os);
    }
    true
}

impl WalletLedger {
    /// The first input of `tx` that a transaction awaiting confirmation, or
    /// one confirmed since it was sent, already spends.
    fn find_conflict(&self, tx: &Transaction) -> (r: Option<CoinID>)
        requires
            self.inv(),
        ensures
            r matches Some(c) ==> tx@.inputs.contains(c) && spent_before(self@, c),
            r is None ==> forall|c: CoinID| tx@.inputs.contains(c) ==> !spent_before(self@, c),
    {
        let mut k: usize = 0;
        while k < tx.inputs.len()
            invariant
                k <= tx.inputs@.len(),
                forall|c: CoinID| tx@.inputs.subrange(0, k as int).contains(c) ==> !spent_before(self@, c),
            decreases tx.inputs@.len() - k,
        {
            let c = tx.inputs[k];
            let mut i: usize = 0;
            while i < self.pending.len()
                invariant
                    i <= self.pending@.len(),
                    k < tx@.inputs.len(),
                    c == tx@.inputs[k as int],
                    forall|j: int| 0 <= j < i ==> !(#[trigger] self@.pending[j]).1.inputs.contains(c),
                decreases self.pending@.len() - i,
            {
                if contains_id(&self.pending[i].tx.inputs, c) {
                    proof {
                        assert(self@.pending[i as int].1.inputs.contains(c));
                        assert(tx@.inputs[k as int] == c);
                        assert(tx@.inputs.contains(c));
                        assert(spent_before(self@, c));
                    }
                    return Some(c);
                }
                proof {
                    assert(!self@.pending[i as int].1.inputs.contains(c));
                }
                i = i + 1;
            }
            if contains_id(&self.consumed, c) {
                proof {
                    assert(tx@.inputs[k as int] == c);
                    assert(tx@.inputs.contains(c));
                }
                return Some(c);
            }
            proof {
                assert forall|c2: CoinID| tx@.inputs.subrange(0, k + 1).contains(c2) implies !spent_before(self@, c2) by {
                    let sub = tx@.inputs.subrange(0, k + 1);
                    let m = choose|m: int| 0 <= m < sub.len() && #[trigger] sub[m] == c2;
                    if m < k {
                        assert(tx@.inputs.subrange(0, k as int)[m] == c2);
                    } else {
                        assert(c2 == c);
                        if spent_by_pending(self@, c2) {
                            let j = choose|j: int| 0 <= j < self@.pending.len() && #[trigger] self@.pending[j].1.inputs.contains(c2);
                            assert(!self@.pending[j].1.inputs.contains(c));
                        }
                    }
                }
            }
            k = k + 1;
        }
        proof {
            assert(tx@.inputs.subrange(0, tx@.inputs.len() as int) =~= tx@.inputs);
        }
        None
    }

    /// Records `tx` as sent: it awaits confirmation until `timeout`, the
    /// wallet's coins it spends stop being spendable, and it joins the
    /// history. Refuses a transaction that spends a coin another one it sent
    /// and has not given up spends (awaiting confirmation or confirmed), and
    /// one the wallet cannot track.
    pub fn commit_sent(&mut self, tx: Transaction, timeout: u64) -> (r: Result<TxHash, TransactionError>)
        requires
            old(self).inv(),
        ensures
            final(self).inv(),
            !trackable(tx@) ==> r == Err::<TxHash, TransactionError>(TransactionError::Malformed)
                && final(self)@ == old(self)@,
            r matches Err(TransactionError::Conflict(c)) ==> tx@.inputs.contains(c) && spent_before(
                old(self)@,
                c,
            ) && final(self)@ == old(self)@,
            trackable(tx@) ==> (r is Err <==> exists|c: CoinID|
                tx@.inputs.contains(c) && #[trigger] spent_before(old(self)@, c)),
            r is Err ==> r matches Err(TransactionError::Malformed) || r matches Err(TransactionError::Conflict(_)),
            r is Err ==> final(self)@ == old(self)@,
            (r is Ok) == accepts_tx(old(self)@, tx@),
            final(self)@ == step(old(self)@, LedgerStep::Commit(tx@, timeout)),
            r is Ok ==> r == Ok::<TxHash, TransactionError>(tx_hash(tx@)) && final(self)@ == committed(
                old(self)@,
                tx@,
                timeout,
            ),
    {
        if !is_trackable(&tx) {
            return Err(TransactionError::Malformed);
        }
        match self.find_conflict(&tx) {
            Some(c) => {
                return Err(TransactionError::Conflict(c));
            },
            None => {},
        }
        let h = tx.hash_nosigs();
        let ghost w0 = self@;
        let ghost cv = record_views(self.coins@);
        let mut kept: Vec<CoinRecord> = Vec::new();
        let mut moved: Vec<CoinRecord> = Vec::new();
        let mut i: usize = 0;
        while i < self.coins.len()
            invariant
                i <= self.coins@.len(),
                cv == record_views(self.coins@),
                record_views(kept@) == unspent_by(cv.subrange(0, i as int), tx@.inputs),
                record_views(moved@) == spent_by(cv.subrange(0, i as int), tx@.inputs),
            decreases self.coins@.len() - i,
        {
            proof {
                assert(cv.subrange(0, i + 1).drop_last() =~= cv.subrange(0, i as int));
            }
            let rec = copy_record(&self.coins[i]);
            let ghost k0 = record_views(kept@);
            let ghost m0 = record_views(moved@);
            if contains_id(&tx.inputs, rec.id) {
                moved.push(rec);
                proof {
                    assert(record_views(moved@) =~= m0.push(cv[i as int]));
                }
            } else {
                kept.push(rec);
                proof {
                    assert(record_views(kept@) =~= k0.push(cv[i as int]));
                }
            }
            i = i + 1;
        }
        proof {
            assert(cv.subrange(0, cv.len() as int) =~= cv);
        }
        let ghost sp0 = record_views(self.spent@);
        self.coins = kept;
        self.spent.append(&mut moved);
        let copy = tx.duplicate();
        self.pending.push(PendingEntry { hash: h, tx: copy, timeout });
        self.history.push((h, tx));
        proof {
            assert(record_views(self.spent@) =~= sp0 + spent_by(cv, tx@.inputs));
            assert(pending_views(self.pending@) =~= w0.pending.push((h, tx@, timeout)));
            assert(history_views(self.history@) =~= w0.history.push((h, tx@)));
            assert(self@ =~= committed(w0, tx@, timeout));
            assert forall|c: CoinID, j: int|
                0 <= j < w0.pending.len() && tx@.inputs.contains(c) implies !#[trigger] w0.pending[j].1.inputs.contains(c) by {
                if w0.pending[j].1.inputs.contains(c) {
                    assert(spent_by_pending(w0, c));
                    assert(spent_before(w0, c));
                }
            }
            lemma_push_disjoint(w0.pending, (h, tx@, timeout));
            assert forall|j: int, c: CoinID|
                0 <= j < self@.pending.len() && #[trigger] self@.pending[j].1.inputs.contains(c) implies !self@.consumed.contains(c) by {
                if j < w0.pending.len() {
                    assert(self@.pending[j] == w0.pending[j]);
                } else {
                    assert(!spent_before(w0, c));
                }
            }
            assert forall|j: int| 0 <= j < self@.pending.len() implies (#[trigger] self@.pending[j]).0 == tx_hash(self@.pending[j].1)
                && trackable(self@.pending[j].1) by {
                if j < w0.pending.len() {
                    assert(self@.pending[j] == w0.pending[j]);
                }
            }
            assert forall|j: int| 0 <= j < self@.history.len() implies (#[trigger] self@.history[j]).0 == tx_hash(self@.history[j].1)
                && trackable(self@.history[j].1) by {
                if j < w0.history.len() {
                    assert(self@.history[j] == w0.history[j]);
                }
            }
        }
        Ok(h)
    }
}

/// Position of the latest history entry for the transaction `h`.
pub open spec fn latest(hist: Seq<(TxHash, TransactionView)>, h: TxHash) -> Option<int>
    decreases hist.len(),
{
    if hist.len() == 0 {
        None
    } else if hist.last().0 == h {
        Some(hist.len() - 1)
    } else {
        latest(hist.drop_last(), h)
    }
}

/// Height at which coin `c` was seen confirmed, by the latest record of it.
pub open spec fn seen_height(seen: Seq<(CoinID, u64)>, c: CoinID) -> Option<u64>
    decreases seen.len(),
{
    if seen.len() == 0 {
        None
    } else if seen.last().0 == c {
        Some(seen.last().1)
    } else {
        seen_height(seen.drop_last(), c)
    }
}

pub open spec fn max_height(a: Option<u64>, b: Option<u64>) -> Option<u64> {
    match (a, b) {
        (Some(x), Some(y)) => Some(if x >= y { x } else { y }),
        (Some(x), None) => Some(x),
        (None, y) => y,
    }
}

/// The highest height at which one of the first `n` outputs of the
/// transaction `h` was seen confirmed.
pub open spec fn confirmed_height(seen: Seq<(CoinID, u64)>, h: TxHash, n: nat) -> Option<u64>
    decreases n,
{
    if n == 0 {
        None
    } else {
        max_height(
            confirmed_height(seen, h, (n - 1) as nat),
            seen_height(seen, CoinID { txhash: h, index: (n - 1) as u8 }),
        )
    }
}

pub open spec fn is_pending(w: WalletView, h: TxHash) -> bool {
    exists|i: int| 0 <= i < w.pending.len() && (#[trigger] w.pending[i]).0 == h
}

/// Where a transaction stands for a wallet.
pub enum TxState {
    NotFound,
    Lost,
    Pending,
    Confirmed(u64),
}

/// A transaction the wallet never recorded is not found; one with a
/// confirmed output (any of the 256 an output index can name) is confirmed
/// at the highest such height; otherwise it is pending while it awaits
/// confirmation, and lost once it no longer does.
pub open spec fn tx_state(w: WalletView, h: TxHash) -> TxState {
    match latest(w.history, h) {
        None => TxState::NotFound,
        Some(_) => match confirmed_height(w.seen, h, 256) {
            Some(x) => TxState::Confirmed(x),
            None => if is_pending(w, h) {
                TxState::Pending
            } else {
                TxState::Lost
            },
        },
    }
}

pub open spec fn ann_view(a: AnnCoinID) -> (CoinID, CoinDataView, bool) {
    (a.coin_id, a.coin_data@, a.is_change)
}

/// The outputs of transaction `h`, each with its identity and whether it
/// returns to `addr`.
pub open spec fn annotated(h: TxHash, outs: Seq<CoinDataView>, addr: Address) -> Seq<(CoinID, CoinDataView, bool)> {
    Seq::new(outs.len(), |k: int| (CoinID { txhash: h, index: k as u8 }, outs[k], outs[k].covhash == addr))
}

proof fn lemma_latest_bounds(hist: Seq<(TxHash, TransactionView)>, h: TxHash)
    ensures
        latest(hist, h) matches Some(i) ==> 0 <= i < hist.len() && hist[i].0 == h,
    decreases hist.len(),
{
    if hist.len() > 0 {
        lemma_latest_bounds(hist.drop_last(), h);
    }
}

fn max_opt(a: Option<u64>, b: Option<u64>) -> (r: Option<u64>)
    ensures
        r == max_height(a, b),
{
    match (a, b) {
        (Some(x), Some(y)) => Some(if x >= y { x } else { y }),
        (Some(x), None) => Some(x),
        (None, y) => y,
    }
}

impl WalletLedger {
    fn find_latest(&self, h: TxHash) -> (r: Option<usize>)
        ensures
            r matches Some(i) ==> latest(self@.history, h) == Some(i as int),
            r is None ==> latest(self@.history, h) is None,
    {
        let ghost hv = self@.history;
        let mut i: usize = self.history.len();
        proof {
            assert(hv.subrange(0, i as int) =~= hv);
        }
        while i > 0
            invariant
                i <= self.history@.len(),
                hv == history_views(self.history@),
                latest(hv, h) == latest(hv.subrange(0, i as int), h),
            decreases i,
        {
            let ghost sub = hv.subrange(0, i as int);
            proof {
                assert(sub.drop_last() =~= hv.subrange(0, i - 1));
            }
            if self.history[i - 1].0 == h {
                return Some(i - 1);
            }
            i = i - 1;
        }
        proof {
            assert(hv.subrange(0, 0) =~= Seq::<(TxHash, TransactionView)>::empty());
        }
        None
    }

    fn seen_at(&self, c: CoinID) -> (r: Option<u64>)
        ensures
            r == seen_height(self@.seen, c),
    {
        let ghost sv = self@.seen;
        let mut i: usize = self.seen.len();
        proof {
            assert(sv.subrange(0, i as int) =~= sv);
        }
        while i > 0
            invariant
                i <= self.seen@.len(),
                sv == self.seen@,
                seen_height(sv, c) == seen_height(sv.subrange(0, i as int), c),
            decreases i,
        {
            proof {
                assert(sv.subrange(0, i as int).drop_last() =~= sv.subrange(0, i - 1));
            }
            if self.seen[i - 1].0 == c {
                return Some(self.seen[i - 1].1);
            }
            i = i - 1;
        }
        None
    }

    fn pending_has(&self, h: TxHash) -> (r: bool)
        ensures
            r == is_pending(self@, h),
    {
        let mut i: usize = 0;
        while i < self.pending.len()
            invariant
                i <= self.pending@.len(),
                forall|j: int| 0 <= j < i ==> (#[trigger] self@.pending[j]).0 != h,
            decreases self.pending@.len() - i,
        {
            if self.pending[i].hash == h {
                proof {
                    assert(self@.pending[i as int].0 == h);
                }
                return true;
            }
            proof {
                assert(self@.pending[i as int].0 != h);
            }
            i = i + 1;
        }
        false
    }

    /// Where the transaction `h` stands, with its contents and its outputs,
    /// each marked as change when it returns to the wallet. A transaction
    /// that no longer awaits confirmation and has no confirmed output is
    /// reported lost, not absent.
    pub fn tx_status(&self, h: TxHash) -> (r: Result<TransactionStatus, TransactionError>)
        requires
            self.inv(),
        ensures
            tx_state(self@, h) is NotFound ==> r == Err::<TransactionStatus, TransactionError>(
                TransactionError::NotFound(h),
            ),
            tx_state(self@, h) is Lost ==> r == Err::<TransactionStatus, TransactionError>(
                TransactionError::Lost(h),
            ),
            tx_state(self@, h) is Pending ==> r is Ok && r->Ok_0.confirmed_height is None,
            tx_state(self@, h) matches TxState::Confirmed(x) ==> r is Ok && r->Ok_0.confirmed_height
                == Some(x),
            r matches Ok(st) ==> latest(self@.history, h) matches Some(i) && st.raw@ == self@.history[i].1
                && st.outputs@.map_values(|a: AnnCoinID| ann_view(a)) == annotated(
                h,
                self@.history[i].1.outputs,
                self@.address,
            ),
    {
        let found = self.find_latest(h);
        proof {
            lemma_latest_bounds(self@.history, h);
        }
        match found {
            None => Err(TransactionError::NotFound(h)),
            Some(i) => {
                let tx = &self.history[i].1;
                let ghost outs = tx@.outputs;
                let mut best: Option<u64> = None;
                let mut k: usize = 0;
                while k < 256
                    invariant
                        k <= 256,
                        best == confirmed_height(self@.seen, h, k as nat),
                    decreases 256 - k,
                {
                    let at = self.seen_at(CoinID { txhash: h, index: k as u8 });
                    best = max_opt(best, at);
                    k = k + 1;
                }
                let mut anns: Vec<AnnCoinID> = Vec::new();
                let mut k: usize = 0;
                while k < tx.outputs.len()
                    invariant
                        k <= tx.outputs@.len(),
                        outs == tx@.outputs,
                        anns@.len() == k,
                        forall|m: int| 0 <= m < k ==> #[trigger] ann_view(anns@[m]) == annotated(
                            h,
                            outs,
                            self@.address,
                        )[m],
                    decreases tx.outputs@.len() - k,
                {
                    let id = CoinID { txhash: h, index: k as u8 };
                    let o = &tx.outputs[k];
                    anns.push(AnnCoinID { coin_data: o.duplicate(), is_change: o.covhash == self.address, coin_id: id });
                    k = k + 1;
                }
                proof {
                    assert(anns@.map_values(|a: AnnCoinID| ann_view(a)) =~= annotated(h, outs, self@.address));
                    assert(self@.history[i as int].1 == tx@);
                }
                match best {
                    Some(_) => Ok(TransactionStatus { raw: tx.duplicate(), confirmed_height: best, outputs: anns }),
                    None => {
                        if self.pending_has(h) {
                            Ok(TransactionStatus { raw: tx.duplicate(), confirmed_height: None, outputs: anns })
                        } else {
                            Err(TransactionError::Lost(h))
                        }
                    },
                }
            },
        }
    }
}

/// The wallet sent `tx`: one of its covenants hashes to the wallet's address.
pub open spec fn self_originated(tx: TransactionView, addr: Address) -> bool {
    exists|k: int| 0 <= k < tx.covenants.len() && covenant_address(#[trigger] tx.covenants[k]) == addr
}

/// The wallet holds coin `c`, spendable or spent by a transaction awaiting
/// confirmation.
pub open spec fn holds(w: WalletView, c: CoinID) -> bool {
    exists|j: int|
        0 <= j < coin_mapping(w, false, true).len() && (#[trigger] coin_mapping(w, false, true)[j]).0
            == c
}

/// Value of `d` among the outputs of transaction `h` that the wallet holds.
pub open spec fn returned_value(w: WalletView, h: TxHash, outs: Seq<CoinDataView>, d: Denom) -> int
    decreases outs.len(),
{
    if outs.len() == 0 {
        0
    } else {
        returned_value(w, h, outs.drop_last(), d) + if outs.last().denom == d && holds(
            w,
            CoinID { txhash: h, index: (outs.len() - 1) as u8 },
        ) {
            outs.last().value as int
        } else {
            0
        }
    }
}

/// How transaction `h` changed the wallet's balance of `d`: when the wallet
/// sent it, its outputs and fee are debited; every output the wallet holds
/// is credited back.
pub open spec fn balance_delta(w: WalletView, h: TxHash, tx: TransactionView, d: Denom) -> int {
    (if self_originated(tx, w.address) {
        -(value_in(tx.outputs, d) + fee_part(d, tx.fee))
    } else {
        0
    }) + returned_value(w, h, tx.outputs, d)
}

/// `v` lists, in a fixed order, the balance change of transaction `h` in
/// each denomination it touches: the native one first, then those of its
/// outputs in the order they first appear.
pub open spec fn balance_listed(v: Seq<(Denom, i128)>, w: WalletView, h: TxHash, tx: TransactionView) -> bool {
    let keys = add_new(seq![Denom::Mel], denoms_of(tx.outputs));
    &&& v.len() == keys.len()
    &&& forall|k: int|
        0 <= k < v.len() ==> (#[trigger] v[k]).0 == keys[k] && v[k].1 as int == balance_delta(
            w,
            h,
            tx,
            keys[k],
        )
}

/// The balance a transaction reports is a function of the wallet's state and
/// the transaction alone: two balance lists that `tx_balance` may return for
/// one state and one transaction are equal, so repeated calls with no change
/// in between give the same result.
pub proof fn lemma_balance_determined(
    v1: Seq<(Denom, i128)>,
    v2: Seq<(Denom, i128)>,
    w: WalletView,
    h: TxHash,
    tx: TransactionView,
)
    requires
        balance_listed(v1, w, h, tx),
        balance_listed(v2, w, h, tx),
    ensures
        v1 == v2,
{
    assert forall|k: int| 0 <= k < v1.len() implies v1[k] == v2[k] by {
        assert(v1[k].0 == v2[k].0);
        assert(v1[k].1 as int == v2[k].1 as int);
    }
    assert(v1 =~= v2);
}

/// `b` is the balance of transaction `tx`, recorded under `h`, for the
/// wallet `w`: whether the wallet sent it, its kind, and its balance change
/// in each denomination it touches, listed in a fixed order.
pub open spec fn balance_of(b: TxBalance, w: WalletView, h: TxHash, tx: TransactionView) -> bool {
    &&& b.0 == self_originated(tx, w.address)
    &&& b.1 == tx.kind
    &&& forall|d: Denom| #[trigger] delta_lookup(b.2@, d) == balance_delta(w, h, tx, d)
    &&& forall|k: int, l: int| 0 <= k < l < b.2@.len() ==> b.2@[k].0 != b.2@[l].0
    &&& balance_listed(b.2@, w, h, tx)
}

/// The delta recorded for `d`, zero when none is.
pub open spec fn delta_lookup(v: Seq<(Denom, i128)>, d: Denom) -> int
    decreases v.len(),
{
    if v.len() == 0 {
        0
    } else if v.last().0 == d {
        v.last().1 as int
    } else {
        delta_lookup(v.drop_last(), d)
    }
}

proof fn lemma_returned_le(w: WalletView, h: TxHash, outs: Seq<CoinDataView>, d: Denom)
    ensures
        0 <= returned_value(w, h, outs, d) <= value_in(outs, d),
    decreases outs.len(),
{
    if outs.len() > 0 {
        lemma_returned_le(w, h, outs.drop_last(), d);
    }
}

proof fn lemma_returned_absent(w: WalletView, h: TxHash, outs: Seq<CoinDataView>, d: Denom)
    requires
        forall|k: int| 0 <= k < outs.len() ==> outs[k].denom != d,
    ensures
        returned_value(w, h, outs, d) == 0,
    decreases outs.len(),
{
    if outs.len() > 0 {
        lemma_returned_absent(w, h, outs.drop_last(), d);
    }
}

fn mapping_has(m: &Vec<(CoinID, CoinData)>, c: CoinID) -> (r: bool)
    ensures
        r == exists|j: int| 0 <= j < m@.len() && (#[trigger] m@[j]).0 == c,
{
    let mut j: usize = 0;
    while j < m.len()
        invariant
            j <= m@.len(),
            forall|i: int| 0 <= i < j ==> (#[trigger] m@[i]).0 != c,
        decreases m@.len() - j,
    {
        if m[j].0 == c {
            return true;
        }
        j = j + 1;
    }
    false
}

impl WalletLedger {
    /// The change transaction `h` made to the wallet's balances, or `None`
    /// when the wallet has no record of it.
    pub fn tx_balance(&self, h: TxHash) -> (r: Option<TxBalance>)
        requires
            self.inv(),
        ensures
            latest(self@.history, h) is None ==> r is None,
            latest(self@.history, h) matches Some(i) ==> r matches Some(b) && b.0 == self_originated(
                self@.history[i].1,
                self@.address,
            ) && b.1 == self@.history[i].1.kind && (forall|d: Denom|
                #[trigger] delta_lookup(b.2@, d) == balance_delta(self@, h, self@.history[i].1, d)) && (
            forall|k: int, l: int| 0 <= k < l < b.2@.len() ==> b.2@[k].0 != b.2@[l].0) && balance_listed(
                b.2@,
                self@,
                h,
                self@.history[i].1,
            ),
    {
        let found = self.find_latest(h);
        proof {
            lemma_latest_bounds(self@.history, h);
        }
        let i = match found {
            None => {
                return None;
            },
            Some(i) => i,
        };
        let tx = &self.history[i].1;
        let ghost w = self@;
        let ghost outs = tx@.outputs;
        proof {
            assert(w.history[i as int].1 == tx@);
            assert(trackable(w.history[i as int].1));
            crate::select::lemma_value_total_nonneg(outs);
        }
        // did the wallet send it?
        let mut so = false;
        let mut k: usize = 0;
        while k < tx.covenants.len()
            invariant
                k <= tx.covenants@.len(),
                so == exists|m: int| 0 <= m < k && covenant_address(#[trigger] tx@.covenants[m]) == w.address,
                w == self@,
            decreases tx.covenants@.len() - k,
        {
            let a = address_of(&tx.covenants[k]);
            proof {
                assert(tx@.covenants[k as int] == tx.covenants@[k as int]@);
            }
            if a == self.address {
                so = true;
            }
            k = k + 1;
        }
        let held = self.get_coin_mapping(false, true);
        let none: Vec<CoinData> = Vec::new();
        let dl = denoms_for(&tx.outputs, &none);
        let mut deltas: Vec<(Denom, i128)> = Vec::new();
        let mut j: usize = 0;
        while j < dl.len()
            invariant
                j <= dl@.len(),
                w == self@,
                outs == tx@.outputs,
                trackable(tx@),
                value_total(outs) >= 0,
                so == self_originated(tx@, w.address),
                pairs_view(held@) == coin_mapping(w, false, true),
                forall|a: int, b: int| 0 <= a < b < dl@.len() ==> dl@[a] != dl@[b],
                deltas@.len() == j,
                forall|a: int| 0 <= a < j ==> (#[trigger] deltas@[a]).0 == dl@[a],
                forall|a: int| 0 <= a < j ==> (#[trigger] deltas@[a]).1 as int == balance_delta(w, h, tx@, dl@[a]),
                forall|d: Denom|
                    #[trigger] delta_lookup(deltas@, d) == if dl@.subrange(0, j as int).contains(d) {
                        balance_delta(w, h, tx@, d)
                    } else {
                        0
                    },
            decreases dl@.len() - j,
        {
            let d = dl[j];
            proof {
                assert(datas(tx.outputs@) == outs);
                lemma_value_in_le_total(outs, d);
                lemma_returned_le(w, h, outs, d);
            }
            let out_d = sum_denom(&tx.outputs, d);
            // what comes back: outputs of `d` the wallet holds
            let mut ret: u128 = 0;
            let mut m: usize = 0;
            while m < tx.outputs.len()
                invariant
                    m <= tx.outputs@.len(),
                    tx.outputs@.len() <= 256,
                    outs == tx@.outputs,
                    pairs_view(held@) == coin_mapping(w, false, true),
                    ret == returned_value(w, h, outs.subrange(0, m as int), d),
                    ret <= value_in(outs.subrange(0, m as int), d),
                    value_in(outs, d) <= value_total(outs),
                    value_total(outs) + tx.fee <= i128::MAX,
                decreases tx.outputs@.len() - m,
            {
                proof {
                    assert(outs.subrange(0, m + 1).drop_last() =~= outs.subrange(0, m as int));
                    lemma_value_in_le_total(outs.subrange(0, m + 1), d);
                    crate::select::lemma_value_total_prefix(outs, m + 1);
                }
                let id = CoinID { txhash: h, index: m as u8 };
                if tx.outputs[m].denom == d {
                    let has = mapping_has(&held, id);
                    proof {
                        if has {
                            let jj = choose|jj: int| 0 <= jj < held@.len() && (#[trigger] held@[jj]).0 == id;
                            assert(pairs_view(held@)[jj].0 == id);
                            assert(holds(w, id));
                        }
                        if holds(w, id) {
                            let jj = choose|jj: int|
                                0 <= jj < coin_mapping(w, false, true).len() && (#[trigger] coin_mapping(w, false, true)[jj]).0 == id;
                            assert(held@[jj].0 == pairs_view(held@)[jj].0);
                        }
                    }
                    if has {
                        ret = ret + tx.outputs[m].value;
                    }
                }
                m = m + 1;
            }
            proof {
                assert(outs.subrange(0, outs.len() as int) =~= outs);
            }
            let debit: u128 = if so {
                if d == Denom::Mel {
                    out_d + tx.fee
                } else {
                    out_d
                }
            } else {
                0
            };
            let delta: i128 = ret as i128 - debit as i128;
            let ghost before = deltas@;
            deltas.push((d, delta));
            proof {
                assert(dl@.subrange(0, j + 1) =~= dl@.subrange(0, j as int).push(d));
                assert(deltas@.drop_last() =~= before);
                assert forall|e: Denom| #[trigger] delta_lookup(deltas@, e) == if dl@.subrange(0, j + 1).contains(e) {
                    balance_delta(w, h, tx@, e)
                } else {
                    0
                } by {
                    let sub = dl@.subrange(0, j as int);
                    if e == d {
                        assert(delta_lookup(deltas@, e) == delta as int);
                        assert(delta as int == balance_delta(w, h, tx@, e));
                    } else {
                        assert(delta_lookup(deltas@, e) == delta_lookup(before, e));
                    }
                    if sub.push(d).contains(e) {
                        let q = choose|q: int| 0 <= q < sub.push(d).len() && sub.push(d)[q] == e;
                        if q < j {
                            assert(sub[q] == e);
                        }
                    }
                    if sub.contains(e) {
                        let q = choose|q: int| 0 <= q < sub.len() && sub[q] == e;
                        assert(sub.push(d)[q] == e);
                        assert(dl@[q] != dl@[j as int]);
                    }
                    if e == d {
                        assert(sub.push(d)[j as int] == e);
                    }
                }
            }
            j = j + 1;
        }
        proof {
            assert(dl@.subrange(0, dl@.len() as int) =~= dl@);
            assert forall|d: Denom| #[trigger] delta_lookup(deltas@, d) == balance_delta(w, h, tx@, d) by {
                if !dl@.contains(d) {
                    assert forall|q: int| 0 <= q < outs.len() implies outs[q].denom != d by {
                        assert(dl@.contains(tx.outputs@[q].denom));
                    }
                    crate::select::lemma_value_in_absent(outs, d);
                    lemma_returned_absent(w, h, outs, d);
                }
            }
            assert forall|a: int, b: int| 0 <= a < b < deltas@.len() implies deltas@[a].0 != deltas@[b].0 by {
                assert(deltas@[a].0 == dl@[a] && deltas@[b].0 == dl@[b]);
            }
            assert(none@ =~= Seq::<CoinData>::empty());
            assert(denoms_of(datas(none@)) =~= Seq::<Denom>::empty());
            assert(datas(tx.outputs@) == outs);
        }
        Some(TxBalance(so, tx.kind, deltas))
    }
}

/// Entries of `p` that `flags` does not mark.
pub open spec fn kept_entries(p: Seq<PendingView>, flags: Seq<bool>) -> Seq<PendingView>
    decreases p.len(),
{
    if p.len() == 0 {
        seq![]
    } else if flags[p.len() - 1] {
        kept_entries(p.drop_last(), flags)
    } else {
        kept_entries(p.drop_last(), flags).push(p.last())
    }
}

/// Coins spent by the entries of `p` that `flags` marks.
pub open spec fn dropped_inputs(p: Seq<PendingView>, flags: Seq<bool>) -> Seq<CoinID>
    decreases p.len(),
{
    if p.len() == 0 {
        seq![]
    } else {
        dropped_inputs(p.drop_last(), flags) + if flags[p.len() - 1] {
            p.last().1.inputs
        } else {
            seq![]
        }
    }
}

/// Marks the entries for the transaction `h`.
pub open spec fn hash_flags(p: Seq<PendingView>, h: TxHash) -> Seq<bool> {
    Seq::new(p.len(), |i: int| p[i].0 == h)
}

/// Marks the entries whose timeout is below `height`.
pub open spec fn expiry_flags(p: Seq<PendingView>, height: u64) -> Seq<bool> {
    Seq::new(p.len(), |i: int| p[i].2 < height)
}

/// The wallet once output `id` is seen confirmed at `height`: the
/// confirmation is recorded, and the transaction that created it no longer
/// awaits confirmation, its spent coins being gone for good.
pub open spec fn after_confirmation(w: WalletView, id: CoinID, height: u64) -> WalletView {
    let flags = hash_flags(w.pending, id.txhash);
    WalletView {
        seen: w.seen.push((id, height)),
        consumed: w.consumed + dropped_inputs(w.pending, flags),
        pending: kept_entries(w.pending, flags),
        spent: unspent_by(w.spent, dropped_inputs(w.pending, flags)),
        ..w
    }
}

/// The wallet once the chain reaches `height`: transactions whose timeout
/// is below it are given up, and the coins they spent are spendable again.
pub open spec fn after_expiry(w: WalletView, height: u64) -> WalletView {
    let flags = expiry_flags(w.pending, height);
    WalletView {
        pending: kept_entries(w.pending, flags),
        coins: w.coins + spent_by(w.spent, dropped_inputs(w.pending, flags)),
        spent: unspent_by(w.spent, dropped_inputs(w.pending, flags)),
        ..w
    }
}

pub open spec fn record_ids(s: Seq<CoinRecordView>) -> Seq<CoinID> {
    s.map_values(|r: CoinRecordView| r.0)
}

/// Whether a coin seen on chain becomes one of the wallet's coins: it is
/// locked by the wallet's address and not already known.
pub open spec fn accepts_coin(w: WalletView, id: CoinID, data: CoinDataView) -> bool {
    data.covhash == w.address && !record_ids(w.coins).contains(id) && !record_ids(w.spent).contains(id)
}

proof fn lemma_disjoint_sub(p: Seq<PendingView>, q: Seq<PendingView>, idx: Seq<int>)
    requires
        pending_disjoint(p),
        q.len() == idx.len(),
        forall|k: int| 0 <= k < q.len() ==> 0 <= #[trigger] idx[k] < p.len() && q[k] == p[idx[k]],
        forall|k: int, l: int| 0 <= k < l < q.len() ==> idx[k] < idx[l],
    ensures
        pending_disjoint(q),
{
    assert forall|i: int, j: int, c: CoinID|
        0 <= i < q.len() && 0 <= j < q.len() && i != j && #[trigger] q[i].1.inputs.contains(c) implies !#[trigger] q[j].1.inputs.contains(c) by {
        assert(q[i] == p[idx[i]] && q[j] == p[idx[j]]);
        if i < j {
            assert(idx[i] < idx[j]);
        } else {
            assert(idx[j] < idx[i]);
        }
    }
}

fn split_records(recs: &Vec<CoinRecord>, ids: &Vec<CoinID>) -> (r: (Vec<CoinRecord>, Vec<CoinRecord>))
    ensures
        record_views(r.0@) == unspent_by(record_views(recs@), ids@),
        record_views(r.1@) == spent_by(record_views(recs@), ids@),
{
    let ghost cv = record_views(recs@);
    let mut kept: Vec<CoinRecord> = Vec::new();
    let mut moved: Vec<CoinRecord> = Vec::new();
    let mut i: usize = 0;
    while i < recs.len()
        invariant
            i <= recs@.len(),
            cv == record_views(recs@),
            record_views(kept@) == unspent_by(cv.subrange(0, i as int), ids@),
            record_views(moved@) == spent_by(cv.subrange(0, i as int), ids@),
        decreases recs@.len() - i,
    {
        proof {
            assert(cv.subrange(0, i + 1).drop_last() =~= cv.subrange(0, i as int));
        }
        let rec = copy_record(&recs[i]);
        let ghost k0 = record_views(kept@);
        let ghost m0 = record_views(moved@);
        if contains_id(ids, rec.id) {
            moved.push(rec);
            proof {
                assert(record_views(moved@) =~= m0.push(cv[i as int]));
            }
        } else {
            kept.push(rec);
            proof {
                assert(record_views(kept@) =~= k0.push(cv[i as int]));
            }
        }
        i = i + 1;
    }
    proof {
        assert(cv.subrange(0, cv.len() as int) =~= cv);
    }
    (kept, moved)
}

impl WalletLedger {
    /// Removes the entries awaiting confirmation that `flags` marks and
    /// returns the coins they spent.
    fn drop_pending(&mut self, flags: &Vec<bool>) -> (r: Vec<CoinID>)
        requires
            old(self).inv(),
            flags@.len() == old(self)@.pending.len(),
        ensures
            final(self).inv(),
            r@ == dropped_inputs(old(self)@.pending, flags@),
            final(self)@ == (WalletView { pending: kept_entries(old(self)@.pending, flags@), ..old(self)@ }),
    {
        let ghost w0 = self@;
        let ghost p = w0.pending;
        let mut kept: Vec<PendingEntry> = Vec::new();
        let mut dropped: Vec<CoinID> = Vec::new();
        let ghost mut idx: Seq<int> = seq![];
        let mut i: usize = 0;
        while i < self.pending.len()
            invariant
                i <= self.pending@.len(),
                self@ == w0,
                p == pending_views(self.pending@),
                flags@.len() == p.len(),
                pending_views(kept@) == kept_entries(p.subrange(0, i as int), flags@),
                dropped@ == dropped_inputs(p.subrange(0, i as int), flags@),
                idx.len() == kept@.len(),
                forall|k: int| 0 <= k < idx.len() ==> 0 <= #[trigger] idx[k] < i && pending_views(kept@)[k] == p[idx[k]],
                forall|k: int, l: int| 0 <= k < l < idx.len() ==> idx[k] < idx[l],
            decreases self.pending@.len() - i,
        {
            proof {
                assert(p.subrange(0, i + 1).drop_last() =~= p.subrange(0, i as int));
            }
            let e = &self.pending[i];
            if flags[i] {
                let ghost d0 = dropped@;
                let mut ins = copy_ids(&e.tx.inputs);
                dropped.append(&mut ins);
                proof {
                    assert(dropped@ =~= d0 + p[i as int].1.inputs);
                }
            } else {
                let ghost k0 = pending_views(kept@);
                kept.push(PendingEntry { hash: e.hash, tx: e.tx.duplicate(), timeout: e.timeout });
                proof {
                    assert(pending_views(kept@) =~= k0.push(p[i as int]));
                    assert(dropped_inputs(p.subrange(0, i + 1), flags@) =~= dropped@);
                    idx = idx.push(i as int);
                }
            }
            i = i + 1;
        }
        proof {
            assert(p.subrange(0, p.len() as int) =~= p);
            lemma_disjoint_sub(p, pending_views(kept@), idx);
        }
        self.pending = kept;
        proof {
            assert(self@ =~= (WalletView { pending: kept_entries(p, flags@), ..w0 }));
            assert forall|j: int| 0 <= j < self@.pending.len() implies (#[trigger] self@.pending[j]).0 == tx_hash(self@.pending[j].1)
                && trackable(self@.pending[j].1) by {
                assert(self@.pending[j] == p[idx[j]]);
                assert(w0.pending[idx[j]] == p[idx[j]]);
            }
            assert forall|j: int, c: CoinID|
                0 <= j < self@.pending.len() && #[trigger] self@.pending[j].1.inputs.contains(c) implies !self@.consumed.contains(c) by {
                assert(self@.pending[j] == p[idx[j]]);
                assert(w0.pending[idx[j]].1.inputs.contains(c));
            }
        }
        dropped
    }

    /// Records that output `id` was seen confirmed at `height`.
    pub fn confirm_output(&mut self, id: CoinID, height: u64)
        requires
            old(self).inv(),
        ensures
            final(self).inv(),
            final(self)@ == after_confirmation(old(self)@, id, height),
            final(self)@ == step(old(self)@, LedgerStep::Confirm(id, height)),
    {
        self.seen.push((id, height));
        proof {
            assert(self@ =~= (WalletView { seen: old(self)@.seen.push((id, height)), ..old(self)@ }));
        }
        let mut flags: Vec<bool> = Vec::new();
        let mut i: usize = 0;
        while i < self.pending.len()
            invariant
                i <= self.pending@.len(),
                self.inv(),
                self@ == (WalletView { seen: old(self)@.seen.push((id, height)), ..old(self)@ }),
                flags@ == Seq::new(i as nat, |k: int| self@.pending[k].0 == id.txhash),
            decreases self.pending@.len() - i,
        {
            flags.push(self.pending[i].hash == id.txhash);
            i = i + 1;
            proof {
                assert(flags@ =~= Seq::new(i as nat, |k: int| self@.pending[k].0 == id.txhash));
            }
        }
        let ghost w1 = self@;
        let mut dropped = self.drop_pending(&flags);
        let (kept, _) = split_records(&self.spent, &dropped);
        self.spent = kept;
        let ghost dv = dropped@;
        self.consumed.append(&mut dropped);
        proof {
            assert(flags@ =~= hash_flags(w1.pending, id.txhash));
            assert(self@ =~= after_confirmation(old(self)@, id, height));
            assert forall|j: int, c: CoinID|
                0 <= j < self@.pending.len() && #[trigger] self@.pending[j].1.inputs.contains(c) implies !self@.consumed.contains(c) by {
                lemma_kept_member(w1.pending, flags@, j);
                let i0 = choose|i: int| 0 <= i < w1.pending.len() && !flags@[i] && #[trigger] w1.pending[i] == kept_entries(w1.pending, flags@)[j];
                assert(w1.pending[i0].1.inputs.contains(c));
                assert(!w1.consumed.contains(c));
                if dv.contains(c) {
                    lemma_dropped_member(w1.pending, flags@, c);
                    let i1 = choose|i: int| 0 <= i < w1.pending.len() && flags@[i] && #[trigger] w1.pending[i].1.inputs.contains(c);
                    assert(i1 != i0);
                }
                if self@.consumed.contains(c) {
                    let q = choose|q: int| 0 <= q < self@.consumed.len() && self@.consumed[q] == c;
                    if q < w1.consumed.len() {
                        assert(w1.consumed[q] == c);
                    } else {
                        assert(dv[q - w1.consumed.len()] == c);
                    }
                }
            }
        }
    }

    /// Takes a coin seen on chain into the wallet when it belongs to it and
    /// is not already known.
    pub fn add_coin(&mut self, id: CoinID, data: CoinData, height: u64)
        requires
            old(self).inv(),
        ensures
            final(self).inv(),
            accepts_coin(old(self)@, id, data@) ==> final(self)@ == (WalletView {
                coins: old(self)@.coins.push((id, data@, height)),
                ..old(self)@
            }),
            !accepts_coin(old(self)@, id, data@) ==> final(self)@ == old(self)@,
            final(self)@ == step(old(self)@, LedgerStep::AddCoin(id, data@, height)),
    {
        if data.covhash != self.address {
            return;
        }
        let mut i: usize = 0;
        while i < self.coins.len()
            invariant
                i <= self.coins@.len(),
                forall|k: int| 0 <= k < i ==> self@.coins[k].0 != id,
                self.inv(),
                self@ == old(self)@,
                data.covhash == self@.address,
            decreases self.coins@.len() - i,
        {
            if self.coins[i].id == id {
                proof {
                    assert(record_ids(self@.coins)[i as int] == id);
                }
                return;
            }
            i = i + 1;
        }
        proof {
            assert forall|x: CoinID| record_ids(self@.coins).contains(x) implies x != id by {
                let k = choose|k: int| 0 <= k < record_ids(self@.coins).len() && record_ids(self@.coins)[k] == x;
                assert(self@.coins[k].0 == x);
            }
        }
        let mut i: usize = 0;
        while i < self.spent.len()
            invariant
                i <= self.spent@.len(),
                forall|k: int| 0 <= k < i ==> self@.spent[k].0 != id,
                !record_ids(self@.coins).contains(id),
                self.inv(),
                self@ == old(self)@,
                data.covhash == self@.address,
            decreases self.spent@.len() - i,
        {
            if self.spent[i].id == id {
                proof {
                    assert(record_ids(self@.spent)[i as int] == id);
                }
                return;
            }
            i = i + 1;
        }
        proof {
            assert forall|x: CoinID| record_ids(self@.spent).contains(x) implies x != id by {
                let k = choose|k: int| 0 <= k < record_ids(self@.spent).len() && record_ids(self@.spent)[k] == x;
                assert(self@.spent[k].0 == x);
            }
        }
        let ghost dv = data@;
        self.coins.push(CoinRecord { id, data, height });
        proof {
            assert(self@.coins =~= old(self)@.coins.push((id, dv, height)));
            assert(self@ =~= (WalletView { coins: old(self)@.coins.push((id, data@, height)), ..old(self)@ }));
        }
    }

    /// Gives up the transactions whose timeout is below `height`; the coins
    /// they spent become spendable again.
    pub fn expire(&mut self, height: u64)
        requires
            old(self).inv(),
        ensures
            final(self).inv(),
            final(self)@ == after_expiry(old(self)@, height),
            final(self)@ == step(old(self)@, LedgerStep::Expire(height)),
    {
        let mut flags: Vec<bool> = Vec::new();
        let mut i: usize = 0;
        while i < self.pending.len()
            invariant
                i <= self.pending@.len(),
                self.inv(),
                self@ == old(self)@,
                flags@ == Seq::new(i as nat, |k: int| self@.pending[k].2 < height),
            decreases self.pending@.len() - i,
        {
            flags.push(self.pending[i].timeout < height);
            i = i + 1;
            proof {
                assert(flags@ =~= Seq::new(i as nat, |k: int| self@.pending[k].2 < height));
            }
        }
        let dropped = self.drop_pending(&flags);
        let (kept, mut moved) = split_records(&self.spent, &dropped);
        let ghost c0 = self@.coins;
        let ghost mv = record_views(moved@);
        self.spent = kept;
        self.coins.append(&mut moved);
        proof {
            assert(self@.coins =~= c0 + mv);
            assert(flags@ =~= expiry_flags(old(self)@.pending, height));
            assert(self@ =~= after_expiry(old(self)@, height));
        }
    }
}

/// No coin is spent by two transactions the wallet sent and has not given
/// up. Two transactions awaiting confirmation never share an input, and none
/// awaiting confirmation spends a coin that a confirmed one spent. Every
/// operation keeps the ledger's invariant, `commit_sent` refuses a
/// transaction spending a coin that one of them spends, and a confirmed
/// transaction's inputs stay recorded as spent
/// (`lemma_confirmed_inputs_stay_spent`); so however sends and
/// confirmations interleave, no two accepted transactions that were not
/// given up share an input.
pub proof fn lemma_no_double_spend(l: WalletLedger, i: int, j: int, c: CoinID)
    requires
        l.inv(),
        0 <= i < l@.pending.len(),
        0 <= j < l@.pending.len(),
        i != j,
        l@.pending[i].1.inputs.contains(c),
    ensures
        !l@.pending[j].1.inputs.contains(c),
        !l@.consumed.contains(c),
{
}

/// When an output of a transaction awaiting confirmation is confirmed, every
/// coin that transaction spends stays spent: a later `commit_sent` refuses
/// any transaction spending it.
pub proof fn lemma_confirmed_inputs_stay_spent(w: WalletView, id: CoinID, height: u64, i: int, c: CoinID)
    requires
        0 <= i < w.pending.len(),
        w.pending[i].0 == id.txhash,
        w.pending[i].1.inputs.contains(c),
    ensures
        spent_before(after_confirmation(w, id, height), c),
{
    let flags = hash_flags(w.pending, id.txhash);
    lemma_flagged_dropped(w.pending, flags, i, c);
    let d = dropped_inputs(w.pending, flags);
    let w2 = after_confirmation(w, id, height);
    let q = choose|q: int| 0 <= q < d.len() && d[q] == c;
    assert(w2.consumed[w.consumed.len() + q] == c);
}

proof fn lemma_flagged_dropped(p: Seq<PendingView>, flags: Seq<bool>, i: int, c: CoinID)
    requires
        p.len() <= flags.len(),
        0 <= i < p.len(),
        flags[i],
        p[i].1.inputs.contains(c),
    ensures
        dropped_inputs(p, flags).contains(c),
    decreases p.len(),
{
    let n = p.len() - 1;
    let rest = dropped_inputs(p.drop_last(), flags);
    if i < n {
        assert(p.drop_last()[i] == p[i]);
        lemma_flagged_dropped(p.drop_last(), flags, i, c);
        let q = choose|q: int| 0 <= q < rest.len() && rest[q] == c;
        assert(dropped_inputs(p, flags)[q] == c);
    } else {
        let q = choose|q: int| 0 <= q < p[i].1.inputs.len() && p[i].1.inputs[q] == c;
        assert(dropped_inputs(p, flags)[rest.len() + q] == c);
    }
}

/// `w2` keeps all that `w1` recorded of confirmations and history.
pub open spec fn extends(w1: WalletView, w2: WalletView) -> bool {
    &&& w1.seen.len() <= w2.seen.len()
    &&& w2.seen.subrange(0, w1.seen.len() as int) == w1.seen
    &&& w1.history.len() <= w2.history.len()
    &&& w2.history.subrange(0, w1.history.len() as int) == w1.history
}

proof fn lemma_seen_prefix(s1: Seq<(CoinID, u64)>, s2: Seq<(CoinID, u64)>, c: CoinID)
    requires
        s1.len() <= s2.len(),
        s2.subrange(0, s1.len() as int) == s1,
        seen_height(s1, c) is Some,
    ensures
        seen_height(s2, c) is Some,
    decreases s2.len(),
{
    if s2.len() == s1.len() {
        assert(s2 =~= s1);
    } else if s2.last().0 != c {
        assert(s2.drop_last().subrange(0, s1.len() as int) =~= s1);
        lemma_seen_prefix(s1, s2.drop_last(), c);
    }
}

proof fn lemma_confirmed_prefix(s1: Seq<(CoinID, u64)>, s2: Seq<(CoinID, u64)>, h: TxHash, n: nat)
    requires
        s1.len() <= s2.len(),
        s2.subrange(0, s1.len() as int) == s1,
        confirmed_height(s1, h, n) is Some,
    ensures
        confirmed_height(s2, h, n) is Some,
    decreases n,
{
    if n > 0 {
        let c = CoinID { txhash: h, index: (n - 1) as u8 };
        if confirmed_height(s1, h, (n - 1) as nat) is Some {
            lemma_confirmed_prefix(s1, s2, h, (n - 1) as nat);
        } else {
            lemma_seen_prefix(s1, s2, c);
        }
    }
}

proof fn lemma_latest_prefix(h1: Seq<(TxHash, TransactionView)>, h2: Seq<(TxHash, TransactionView)>, h: TxHash)
    requires
        h1.len() <= h2.len(),
        h2.subrange(0, h1.len() as int) == h1,
        latest(h1, h) is Some,
    ensures
        latest(h2, h) is Some,
    decreases h2.len(),
{
    if h2.len() == h1.len() {
        assert(h2 =~= h1);
    } else if h2.last().0 != h {
        assert(h2.drop_last().subrange(0, h1.len() as int) =~= h1);
        lemma_latest_prefix(h1, h2.drop_last(), h);
    }
}

/// Once an output of a transaction is confirmed, the transaction is
/// confirmed in every later state: it is never again reported pending or
/// lost.
pub proof fn lemma_confirmed_stays(w1: WalletView, w2: WalletView, h: TxHash)
    requires
        extends(w1, w2),
        tx_state(w1, h) is Confirmed,
    ensures
        tx_state(w2, h) is Confirmed,
{
    lemma_latest_prefix(w1.history, w2.history, h);
    lemma_confirmed_prefix(w1.seen, w2.seen, h, 256);
}

/// Every operation that changes a wallet keeps what it recorded of
/// confirmations and history.
pub proof fn lemma_operations_extend(
    w: WalletView,
    tx: TransactionView,
    timeout: u64,
    id: CoinID,
    at: u64,
    data: CoinDataView,
    sk: Seq<u8>,
)
    ensures
        extends(w, committed(w, tx, timeout)),
        extends(w, after_confirmation(w, id, at)),
        extends(w, after_expiry(w, at)),
        extends(w, WalletView { coins: w.coins.push((id, data, at)), ..w }),
        extends(w, w.locked_view()),
        extends(w, w.unlocked_view(sk)),
{
    assert(w.seen.subrange(0, w.seen.len() as int) =~= w.seen);
    assert(w.history.subrange(0, w.history.len() as int) =~= w.history);
    assert(w.history.push((tx_hash(tx), tx)).subrange(0, w.history.len() as int) =~= w.history);
    assert(w.seen.push((id, at)).subrange(0, w.seen.len() as int) =~= w.seen);
}

/// A transaction just sent is pending, unless one of its outputs was
/// already seen confirmed.
pub proof fn lemma_sent_starts_pending(w: WalletView, tx: TransactionView, timeout: u64)
    requires
        confirmed_height(w.seen, tx_hash(tx), 256) is None,
    ensures
        tx_state(committed(w, tx, timeout), tx_hash(tx)) is Pending,
{
    let w2 = committed(w, tx, timeout);
    let h = tx_hash(tx);
    assert(w2.history.last().0 == h);
    assert(w2.pending[w.pending.len() as int].0 == h);
    assert(is_pending(w2, h));
}

proof fn lemma_kept_member(p: Seq<PendingView>, flags: Seq<bool>, k: int)
    requires
        flags.len() == p.len(),
        0 <= k < kept_entries(p, flags).len(),
    ensures
        exists|i: int| 0 <= i < p.len() && !flags[i] && #[trigger] p[i] == kept_entries(p, flags)[k],
    decreases p.len(),
{
    if p.len() > 0 {
        let rest = kept_entries(p.drop_last(), flags.subrange(0, p.len() - 1));
        lemma_kept_prefix_flags(p.drop_last(), flags);
        if k < kept_entries(p.drop_last(), flags).len() {
            lemma_kept_member(p.drop_last(), flags.subrange(0, p.len() - 1), k);
            let i = choose|i: int| 0 <= i < p.drop_last().len() && !flags.subrange(0, p.len() - 1)[i]
                && #[trigger] p.drop_last()[i] == rest[k];
            assert(p[i] == p.drop_last()[i]);
        } else {
            assert(p[p.len() - 1] == kept_entries(p, flags)[k]);
        }
    }
}

/// Only the flags of the entries present matter.
proof fn lemma_kept_prefix_flags(p: Seq<PendingView>, flags: Seq<bool>)
    requires
        p.len() <= flags.len(),
    ensures
        kept_entries(p, flags) == kept_entries(p, flags.subrange(0, p.len() as int)),
    decreases p.len(),
{
    if p.len() > 0 {
        lemma_kept_prefix_flags(p.drop_last(), flags);
        lemma_kept_prefix_flags(p.drop_last(), flags.subrange(0, p.len() as int));
        assert(flags.subrange(0, p.len() as int).subrange(0, p.len() - 1) =~= flags.subrange(0, p.len() - 1));
    }
}

/// A transaction given up at expiry with no confirmed output is reported
/// lost, not absent.
pub proof fn lemma_expired_is_lost(w: WalletView, height: u64, h: TxHash)
    requires
        latest(w.history, h) is Some,
        confirmed_height(w.seen, h, 256) is None,
        forall|i: int| 0 <= i < w.pending.len() && (#[trigger] w.pending[i]).0 == h ==> w.pending[i].2 < height,
    ensures
        tx_state(after_expiry(w, height), h) is Lost,
{
    let w2 = after_expiry(w, height);
    let flags = expiry_flags(w.pending, height);
    if is_pending(w2, h) {
        let k = choose|k: int| 0 <= k < w2.pending.len() && (#[trigger] w2.pending[k]).0 == h;
        lemma_kept_member(w.pending, flags, k);
        let i = choose|i: int| 0 <= i < w.pending.len() && !flags[i] && #[trigger] w.pending[i] == kept_entries(w.pending, flags)[k];
        assert(w.pending[i].0 == h);
    }
}

/// Balance of `d` among coins, capped at the largest coin value.
pub open spec fn capped_balance(coins: Seq<(CoinID, CoinDataView)>, d: Denom) -> int {
    let v = value_in(coins.map_values(|c: (CoinID, CoinDataView)| c.1), d);
    if v > u128::MAX {
        u128::MAX as int
    } else {
        v
    }
}

pub open spec fn balance_lookup(v: Seq<(Denom, u128)>, d: Denom) -> int
    decreases v.len(),
{
    if v.len() == 0 {
        0
    } else if v.last().0 == d {
        v.last().1 as int
    } else {
        balance_lookup(v.drop_last(), d)
    }
}

/// Balance of `d` among `coins`, capped at the largest coin value.
fn sum_capped(coins: &Vec<(CoinID, CoinData)>, d: Denom) -> (r: u128)
    ensures
        r == capped_balance(pairs_view(coins@), d),
{
    let ghost vs = pairs_view(coins@).map_values(|c: (CoinID, CoinDataView)| c.1);
    let mut acc: u128 = 0;
    let mut capped = false;
    let mut i: usize = 0;
    while i < coins.len()
        invariant
            i <= coins@.len(),
            vs == pairs_view(coins@).map_values(|c: (CoinID, CoinDataView)| c.1),
            !capped ==> acc == value_in(vs.subrange(0, i as int), d),
            capped ==> acc == u128::MAX && value_in(vs.subrange(0, i as int), d) > u128::MAX,
        decreases coins@.len() - i,
    {
        proof {
            assert(vs.subrange(0, i + 1).drop_last() =~= vs.subrange(0, i as int));
            assert(vs[i as int] == coins@[i as int].1@);
            crate::select::lemma_value_in_nonneg(vs.subrange(0, i as int), d);
        }
        if coins[i].1.denom == d && !capped {
            if acc > u128::MAX - coins[i].1.value {
                acc = u128::MAX;
                capped = true;
            } else {
                acc = acc + coins[i].1.value;
            }
        }
        i = i + 1;
    }
    proof {
        assert(vs.subrange(0, vs.len() as int) =~= vs);
    }
    acc
}

impl WalletLedger {
    /// The wallet's front page: spendable balances, counting the change of
    /// transactions awaiting confirmation, and the stake reported by the chain.
    pub fn summary(&self, network: NetID, staked_microsym: u128) -> (r: WalletSummary)
        requires
            self.inv(),
        ensures
            r.total_micromel == capped_balance(coin_mapping(self@, false, false), Denom::Mel),
            forall|d: Denom|
                #[trigger] balance_lookup(r.detailed_balance@, d) == capped_balance(
                    coin_mapping(self@, false, false),
                    d,
                ),
            r.staked_microsym == staked_microsym,
            r.network == network,
            r.address == self@.address,
            r.locked == self@.locked,
    {
        let coins = self.get_coin_mapping(false, false);
        let mut ds: Vec<Denom> = Vec::new();
        let mut i: usize = 0;
        while i < coins.len()
            invariant
                i <= coins@.len(),
                forall|a: int, b: int| 0 <= a < b < ds@.len() ==> ds@[a] != ds@[b],
                forall|k: int| 0 <= k < i ==> ds@.contains(#[trigger] coins@[k].1.denom),
            decreases coins@.len() - i,
        {
            let d = coins[i].1.denom;
            let ghost old_ds = ds@;
            if !crate::select::contains_denom(&ds, d) {
                ds.push(d);
                proof {
                    assert(ds@[ds@.len() - 1] == d);
                    assert forall|x: Denom| old_ds.contains(x) implies ds@.contains(x) by {
                        let j = choose|j: int| 0 <= j < old_ds.len() && old_ds[j] == x;
                        assert(ds@[j] == x);
                    }
                }
            }
            proof {
                assert(ds@.contains(d));
            }
            i = i + 1;
        }
        let mut detailed: Vec<(Denom, u128)> = Vec::new();
        let mut j: usize = 0;
        while j < ds.len()
            invariant
                j <= ds@.len(),
                forall|a: int, b: int| 0 <= a < b < ds@.len() ==> ds@[a] != ds@[b],
                forall|d: Denom|
                    #[trigger] balance_lookup(detailed@, d) == if ds@.subrange(0, j as int).contains(d) {
                        capped_balance(pairs_view(coins@), d)
                    } else {
                        0
                    },
            decreases ds@.len() - j,
        {
            let d = ds[j];
            let b = sum_capped(&coins, d);
            let ghost before = detailed@;
            detailed.push((d, b));
            proof {
                let sub = ds@.subrange(0, j as int);
                assert(ds@.subrange(0, j + 1) =~= sub.push(d));
                assert(detailed@.drop_last() =~= before);
                assert forall|e: Denom| #[trigger] balance_lookup(detailed@, e) == if sub.push(d).contains(e) {
                    capped_balance(pairs_view(coins@), e)
                } else {
                    0
                } by {
                    if e != d {
                        assert(balance_lookup(detailed@, e) == balance_lookup(before, e));
                    }
                    if sub.push(d).contains(e) {
                        let q = choose|q: int| 0 <= q < sub.push(d).len() && sub.push(d)[q] == e;
                        if q < j {
                            assert(sub[q] == e);
                        }
                    }
                    if sub.contains(e) {
                        let q = choose|q: int| 0 <= q < sub.len() && sub[q] == e;
                        assert(sub.push(d)[q] == e);
                        assert(ds@[q] != ds@[j as int]);
                    }
                    if e == d {
                        assert(sub.push(d)[j as int] == e);
                    }
                }
            }
            j = j + 1;
        }
        proof {
            assert(ds@.subrange(0, ds@.len() as int) =~= ds@);
            let cv = pairs_view(coins@).map_values(|c: (CoinID, CoinDataView)| c.1);
            assert forall|d: Denom| #[trigger] balance_lookup(detailed@, d) == capped_balance(pairs_view(coins@), d) by {
                if !ds@.contains(d) {
                    assert forall|k: int| 0 <= k < cv.len() implies cv[k].denom != d by {
                        assert(cv[k] == coins@[k].1@);
                        assert(ds@.contains(coins@[k].1.denom));
                    }
                    crate::select::lemma_value_in_absent(cv, d);
                }
            }
        }
        let total = sum_capped(&coins, Denom::Mel);
        WalletSummary {
            total_micromel: total,
            detailed_balance: detailed,
            staked_microsym,
            network,
            address: self.address,
            locked: self.secret.is_none(),
        }
    }

    /// The history: each transaction's hash and the height at which it was
    /// confirmed, if it was.
    pub fn dump_transactions(&self) -> (r: Vec<(TxHash, Option<u64>)>)
        requires
            self.inv(),
        ensures
            r@.len() == self@.history.len(),
            forall|k: int|
                0 <= k < r@.len() ==> #[trigger] r@[k] == (
                    self@.history[k].0,
                    confirmed_height(self@.seen, self@.history[k].0, 256),
                ),
    {
        let mut out: Vec<(TxHash, Option<u64>)> = Vec::new();
        let mut i: usize = 0;
        while i < self.history.len()
            invariant
                i <= self.history@.len(),
                out@.len() == i,
                forall|k: int|
                    0 <= k < i ==> #[trigger] out@[k] == (
                        self@.history[k].0,
                        confirmed_height(self@.seen, self@.history[k].0, 256),
                    ),
            decreases self.history@.len() - i,
        {
            let h = self.history[i].0;
            let mut best: Option<u64> = None;
            let mut k: usize = 0;
            while k < 256
                invariant
                    k <= 256,
                    best == confirmed_height(self@.seen, h, k as nat),
                decreases 256 - k,
            {
                let at = self.seen_at(CoinID { txhash: h, index: k as u8 });
                best = max_opt(best, at);
                k = k + 1;
            }
            out.push((h, best));
            i = i + 1;
        }
        out
    }
}

proof fn lemma_dropped_member(p: Seq<PendingView>, flags: Seq<bool>, c: CoinID)
    requires
        p.len() <= flags.len(),
        dropped_inputs(p, flags).contains(c),
    ensures
        exists|i: int| 0 <= i < p.len() && flags[i] && #[trigger] p[i].1.inputs.contains(c),
    decreases p.len(),
{
    let n = p.len() - 1;
    let rest = dropped_inputs(p.drop_last(), flags);
    let last = if flags[n] { p.last().1.inputs } else { seq![] };
    let q = choose|q: int| 0 <= q < (rest + last).len() && (rest + last)[q] == c;
    if q < rest.len() {
        assert(rest[q] == c);
        lemma_dropped_member(p.drop_last(), flags, c);
        let i = choose|i: int| 0 <= i < p.drop_last().len() && flags[i] && #[trigger] p.drop_last()[i].1.inputs.contains(c);
        assert(p[i] == p.drop_last()[i]);
    } else {
        assert(last[q - rest.len()] == c);
        assert(p[n].1.inputs.contains(c));
    }
}

/// One change a wallet goes through: a call of `commit_sent`,
/// `confirm_output`, `add_coin`, `expire`, `lock` or `unlock`, with its
/// arguments.
pub enum LedgerStep {
    Commit(TransactionView, u64),
    Confirm(CoinID, u64),
    AddCoin(CoinID, CoinDataView, u64),
    Expire(u64),
    Lock,
    Unlock(Seq<u8>, Seq<u8>),
}

/// `commit_sent` accepts `tx`.
pub open spec fn accepts_tx(w: WalletView, tx: TransactionView) -> bool {
    trackable(tx) && forall|c: CoinID| tx.inputs.contains(c) ==> !#[trigger] spent_before(w, c)
}

/// The wallet after one step.
pub open spec fn step(w: WalletView, op: LedgerStep) -> WalletView {
    match op {
        LedgerStep::Commit(tx, timeout) => if accepts_tx(w, tx) {
            committed(w, tx, timeout)
        } else {
            w
        },
        LedgerStep::Confirm(id, height) => after_confirmation(w, id, height),
        LedgerStep::AddCoin(id, data, height) => if accepts_coin(w, id, data) {
            WalletView { coins: w.coins.push((id, data, height)), ..w }
        } else {
            w
        },
        LedgerStep::Expire(height) => after_expiry(w, height),
        LedgerStep::Lock => w.locked_view(),
        LedgerStep::Unlock(password, sk) => if blake3_of(password) == w.password_hash {
            w.unlocked_view(sk)
        } else {
            w
        },
    }
}

/// The wallet after a sequence of steps, in order.
pub open spec fn run(w: WalletView, ops: Seq<LedgerStep>) -> WalletView
    decreases ops.len(),
{
    if ops.len() == 0 {
        w
    } else {
        step(run(w, ops.drop_last()), ops.last())
    }
}

/// Once an output of a transaction is confirmed, it stays confirmed through
/// any later sequence of calls: it is never again reported pending or lost.
pub proof fn lemma_confirmed_stays_over_calls(w: WalletView, ops: Seq<LedgerStep>, h: TxHash)
    requires
        tx_state(w, h) is Confirmed,
    ensures
        tx_state(run(w, ops), h) is Confirmed,
    decreases ops.len(),
{
    if ops.len() > 0 {
        lemma_confirmed_stays_over_calls(w, ops.drop_last(), h);
        let v = run(w, ops.drop_last());
        lemma_step_extends(v, ops.last());
        lemma_confirmed_stays(v, step(v, ops.last()), h);
    }
}

/// Every step keeps what the wallet recorded of confirmations and history.
pub proof fn lemma_step_extends(w: WalletView, op: LedgerStep)
    ensures
        extends(w, step(w, op)),
{
    assert(w.seen.subrange(0, w.seen.len() as int) =~= w.seen);
    assert(w.history.subrange(0, w.history.len() as int) =~= w.history);
    match op {
        LedgerStep::Commit(tx, _) => {
            assert(w.history.push((tx_hash(tx), tx)).subrange(0, w.history.len() as int) =~= w.history);
        },
        LedgerStep::Confirm(id, at) => {
            assert(w.seen.push((id, at)).subrange(0, w.seen.len() as int) =~= w.seen);
        },
        _ => {},
    }
}

/// The positions, in order, of the entries of `p` that `flags` keeps.
proof fn kept_indices(p: Seq<PendingView>, flags: Seq<bool>) -> (idx: Seq<int>)
    requires
        p.len() <= flags.len(),
    ensures
        idx.len() == kept_entries(p, flags).len(),
        forall|k: int|
            0 <= k < idx.len() ==> 0 <= #[trigger] idx[k] < p.len() && !flags[idx[k]]
                && kept_entries(p, flags)[k] == p[idx[k]],
        forall|k: int, l: int| 0 <= k < l < idx.len() ==> idx[k] < idx[l],
    decreases p.len(),
{
    if p.len() == 0 {
        seq![]
    } else {
        let prev = kept_indices(p.drop_last(), flags);
        assert forall|k: int| 0 <= k < prev.len() implies p.drop_last()[prev[k]] == p[prev[k]] by {}
        if flags[p.len() - 1] {
            prev
        } else {
            prev.push(p.len() - 1)
        }
    }
}

/// No two transactions awaiting confirmation share an input, and none
/// spends a coin a confirmed one spent.
pub open spec fn spends_disjoint(w: WalletView) -> bool {
    pending_disjoint(w.pending) && settled_disjoint(w.pending, w.consumed)
}

proof fn lemma_drop_keeps_disjoint(p: Seq<PendingView>, flags: Seq<bool>, consumed: Seq<CoinID>)
    requires
        flags.len() == p.len(),
        pending_disjoint(p),
        settled_disjoint(p, consumed),
    ensures
        pending_disjoint(kept_entries(p, flags)),
        settled_disjoint(kept_entries(p, flags), consumed),
        settled_disjoint(kept_entries(p, flags), consumed + dropped_inputs(p, flags)),
{
    let q = kept_entries(p, flags);
    let idx = kept_indices(p, flags);
    lemma_disjoint_sub(p, q, idx);
    let d = dropped_inputs(p, flags);
    assert forall|j: int, c: CoinID| 0 <= j < q.len() && #[trigger] q[j].1.inputs.contains(c) implies !(
    consumed + d).contains(c) by {
        let i0 = idx[j];
        assert(p[i0].1.inputs.contains(c));
        assert(!consumed.contains(c));
        if d.contains(c) {
            lemma_dropped_member(p, flags, c);
            let i1 = choose|i: int| 0 <= i < p.len() && flags[i] && #[trigger] p[i].1.inputs.contains(c);
            assert(i1 != i0);
        }
        if (consumed + d).contains(c) {
            let k = choose|k: int| 0 <= k < (consumed + d).len() && (consumed + d)[k] == c;
            if k < consumed.len() {
                assert(consumed[k] == c);
            } else {
                assert(d[k - consumed.len()] == c);
            }
        }
    }
    assert forall|j: int, c: CoinID| 0 <= j < q.len() && #[trigger] q[j].1.inputs.contains(c) implies !consumed.contains(c) by {
        assert(p[idx[j]].1.inputs.contains(c));
    }
}

/// Every step keeps inputs disjoint.
pub proof fn lemma_step_keeps_disjoint(w: WalletView, op: LedgerStep)
    requires
        spends_disjoint(w),
    ensures
        spends_disjoint(step(w, op)),
{
    match op {
        LedgerStep::Commit(tx, t) => {
            if accepts_tx(w, tx) {
                let e = (tx_hash(tx), tx, t);
                assert forall|c: CoinID, i: int|
                    0 <= i < w.pending.len() && e.1.inputs.contains(c) implies !#[trigger] w.pending[i].1.inputs.contains(c) by {
                    if w.pending[i].1.inputs.contains(c) {
                        assert(spent_by_pending(w, c));
                        assert(spent_before(w, c));
                    }
                }
                lemma_push_disjoint(w.pending, e);
                let p2 = w.pending.push(e);
                assert forall|i: int, c: CoinID| 0 <= i < p2.len() && #[trigger] p2[i].1.inputs.contains(c) implies !w.consumed.contains(c) by {
                    if i < w.pending.len() {
                        assert(p2[i] == w.pending[i]);
                    } else {
                        assert(!spent_before(w, c));
                    }
                }
            }
        },
        LedgerStep::Confirm(id, _) => {
            lemma_drop_keeps_disjoint(w.pending, hash_flags(w.pending, id.txhash), w.consumed);
        },
        LedgerStep::Expire(at) => {
            lemma_drop_keeps_disjoint(w.pending, expiry_flags(w.pending, at), w.consumed);
        },
        _ => {},
    }
}

/// No double spend over any sequence of calls: starting from a wallet whose
/// sent transactions spend disjoint coins (a new wallet has none), after
/// any sequence of commits, confirmations, new coins, expiries and lock
/// changes, no two transactions awaiting confirmation share an input and
/// none spends a coin a confirmed transaction spent. Only transactions the
/// wallet gave up at expiry release their coins.
pub proof fn lemma_no_double_spend_over_calls(w: WalletView, ops: Seq<LedgerStep>)
    requires
        spends_disjoint(w),
    ensures
        spends_disjoint(run(w, ops)),
    decreases ops.len(),
{
    if ops.len() > 0 {
        lemma_no_double_spend_over_calls(w, ops.drop_last());
        lemma_step_keeps_disjoint(run(w, ops.drop_last()), ops.last());
    }
}

} // verus!
