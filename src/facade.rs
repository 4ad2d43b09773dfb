//! The wallets a daemon serves, by name, behind one operation per request,
//! each with its own closed error type.
use vstd::prelude::*;
use crate::error::{CreateWalletError, NeedWallet, PrepareTxError, TransactionError, WalletAccessError};
use crate::ledger::{
    TxState, WalletLedger, WalletView, balance_delta, capped_balance, coin_mapping, committed, latest,
    self_originated, trackable, tx_state,
};
use crate::select::{
    assembled, covered_at, datas, fee_bound, fee_reached, first_bad_reported, funds_cover_fees,
    shortfall_reported, inputs_ok, pairs_view, prepare, resolved_datas, shortfall,
    tx_covenants, within_limits,
};
use crate::ledger::{
    after_confirmation, after_expiry, accepts_coin, balance_of, fresh_wallet, ann_view, annotated, balance_lookup, confirmed_height,
    delta_lookup, spent_before,
};
use crate::tx::{tx_weight, with_sigs};
use crate::tx::{Signer, tx_hash};
use crate::types::{
    Address, CoinData, CoinDataView, CoinID, Denom, NetID, PrepareTxArgs, Transaction,
    TransactionStatus, TransactionView, TxBalance, TxHash, TxKind, WalletSummary,
};

verus! {

/// Named wallets; a name names at most one wallet.
pub struct WalletRegistry {
    names: Vec<String>,
    ledgers: Vec<WalletLedger>,
}

/// Position of the wallet named `name`.
pub open spec fn wallet_index(v: Seq<(Seq<char>, WalletView)>, name: Seq<char>) -> Option<int> {
    if exists|i: int| 0 <= i < v.len() && (#[trigger] v[i]).0 == name {
        Some(choose|i: int| 0 <= i < v.len() && (#[trigger] v[i]).0 == name)
    } else {
        None
    }
}

/// Whether the faucet may be used on `network`: anywhere but the main network.
pub open spec fn faucet_allowed(network: NetID) -> bool {
    network != NetID::Mainnet
}

/// What the faucet pays: 1000 MEL, in base units.
pub const FAUCET_MICROMEL: u128 = 1_000_000_000;

/// The faucet transaction paying the address `to`: of kind `Faucet`, with no
/// input, no fee and no covenant, one output of `FAUCET_MICROMEL` MEL to
/// `to`, and `nonce` as its data so that each one has its own hash.
pub open spec fn faucet_view(to: Address, nonce: Seq<u8>) -> TransactionView {
    TransactionView {
        kind: TxKind::Faucet,
        inputs: seq![],
        outputs: seq![CoinDataView { covhash: to, value: FAUCET_MICROMEL, denom: Denom::Mel, additional_data: seq![] }],
        fee: 0,
        covenants: seq![],
        data: nonce,
        sigs: seq![],
    }
}

/// Builds the faucet transaction paying `to`; refused on the main network.
pub fn faucet_tx(network: NetID, to: Address, nonce: Vec<u8>) -> (r: Result<Transaction, TransactionError>)
    ensures
        !faucet_allowed(network) ==> r == Err::<Transaction, TransactionError>(TransactionError::InvalidFaucet),
        faucet_allowed(network) ==> (r matches Ok(tx) && tx@ == faucet_view(to, nonce@)),
{
    check_faucet(network)?;
    let mut outputs: Vec<CoinData> = Vec::new();
    outputs.push(CoinData { covhash: to, value: FAUCET_MICROMEL, denom: Denom::Mel, additional_data: Vec::new() });
    let tx = Transaction {
        kind: TxKind::Faucet,
        inputs: Vec::new(),
        outputs,
        fee: 0,
        covenants: Vec::new(),
        data: nonce,
        sigs: Vec::new(),
    };
    proof {
        let v = faucet_view(to, nonce@);
        assert(tx.outputs@[0]@.additional_data =~= Seq::<u8>::empty());
        assert(tx@.outputs =~= v.outputs);
        assert(tx@.inputs =~= v.inputs);
        assert(tx@.covenants =~= v.covenants);
        assert(tx@.sigs =~= v.sigs);
        assert(tx@ =~= v);
    }
    Ok(tx)
}

/// Refuses a faucet transaction on the main network.
pub fn check_faucet(network: NetID) -> (r: Result<(), TransactionError>)
    ensures
        faucet_allowed(network) ==> r is Ok,
        !faucet_allowed(network) ==> r == Err::<(), TransactionError>(TransactionError::InvalidFaucet),
{
    match network {
        NetID::Mainnet => Err(TransactionError::InvalidFaucet),
        _ => Ok(()),
    }
}

/// The covenant a transaction of the wallet `w` is signed for: that of
/// `signer`, or the wallet's own.
pub open spec fn signer_covenant(signer: Option<Signer>, w: WalletView) -> Seq<u8> {
    match signer {
        Some(s) => s.covenant@,
        None => w.covenant,
    }
}

/// Whether a key is at hand: that of `signer`, or the wallet's while unlocked.
pub open spec fn signer_has_key(signer: Option<Signer>, w: WalletView) -> bool {
    match signer {
        Some(s) => s.key is Some,
        None => !w.locked,
    }
}

/// `r` is what preparing `args` from the wallet `w` yields, signing for
/// `cov`, with a key at hand or not (see `prepare`).
pub open spec fn prepared_from(
    r: Result<Transaction, NeedWallet<PrepareTxError>>,
    w: WalletView,
    args: PrepareTxArgs,
    resolved: Seq<Option<CoinData>>,
    fee_multiplier: u128,
    cov: Seq<u8>,
    has_key: bool,
) -> bool {
    let m = coin_mapping(w, false, false);
    let covs = tx_covenants(args, cov);
    let ex = resolved_datas(resolved);
    let req = datas(args.outputs@);
    &&& first_bad_reported(r, args, resolved, covs)
    &&& inputs_ok(resolved, covs) ==> (r matches Ok(tx) ==> {
        &&& tx@.outputs.subrange(0, args.outputs@.len() as int) == req
        &&& exists|picked: Seq<usize>|
            assembled(args, ex, m, tx.fee, w.address, covs, with_sigs(tx@, seq![]), picked)
        &&& tx.fee >= fee_multiplier * tx_weight(with_sigs(tx@, seq![]), args.fee_ballast)
        &&& tx.fee <= fee_bound(args, covs, m.len() as int, fee_multiplier)
        &&& fee_multiplier == 0 ==> tx.fee == 0
        &&& fee_reached(args, ex, m, w.address, covs, fee_multiplier, tx.fee)
        &&& tx@.sigs.len() == tx@.inputs.len()
    })
    &&& inputs_ok(resolved, covs) ==> (r matches Err(NeedWallet::Wallet(e)) ==> e
        == WalletAccessError::Locked && !has_key)
    &&& inputs_ok(resolved, covs) ==> (r matches Err(
        NeedWallet::Other(PrepareTxError::InsufficientFunds(s, d)),
    ) ==> s > 0 && ((d != crate::types::Denom::Mel || fee_multiplier == 0) ==> s == shortfall(
        req,
        ex,
        m,
        args.inputs@,
        args.nobalance@,
        d,
        0,
    )))
    &&& (inputs_ok(resolved, covs) && fee_multiplier == 0 && has_key && forall|d: crate::types::Denom|
        #[trigger] shortfall(req, ex, m, args.inputs@, args.nobalance@, d, 0) <= 0) ==> r is Ok
    &&& (inputs_ok(resolved, covs) && has_key && fee_bound(args, covs, m.len() as int, fee_multiplier)
        <= u128::MAX && covered_at(
        args,
        ex,
        m,
        fee_bound(args, covs, m.len() as int, fee_multiplier) as u128,
    )) ==> r is Ok
    &&& inputs_ok(resolved, covs) ==> (r matches Err(
        NeedWallet::Other(PrepareTxError::InsufficientFunds(s, d)),
    ) ==> shortfall_reported(args, ex, m, w.address, covs, fee_multiplier, s, d))
    &&& (inputs_ok(resolved, covs) && has_key && funds_cover_fees(
        args,
        ex,
        m,
        w.address,
        covs,
        fee_multiplier,
    )) ==> r is Ok
}

impl View for WalletRegistry {
    type V = Seq<(Seq<char>, WalletView)>;

    closed spec fn view(&self) -> Seq<(Seq<char>, WalletView)> {
        Seq::new(self.names@.len(), |i: int| (self.names@[i]@, self.ledgers@[i]@))
    }
}

impl WalletRegistry {
    pub closed spec fn inv(&self) -> bool {
        &&& self.names@.len() == self.ledgers@.len()
        &&& forall|i: int| 0 <= i < self.ledgers@.len() ==> (#[trigger] self.ledgers@[i]).inv()
        &&& forall|i: int, j: int|
            0 <= i < j < self.names@.len() ==> self.names@[i]@ != self.names@[j]@
    }

    pub fn new() -> (r: WalletRegistry)
        ensures
            r.inv(),
            r@.len() == 0,
    {
        let r = WalletRegistry { names: Vec::new(), ledgers: Vec::new() };
        proof {
            assert(r@ =~= Seq::<(Seq<char>, WalletView)>::empty());
        }
        r
    }

    fn find(&self, name: &String) -> (r: Option<usize>)
        requires
            self.inv(),
        ensures
            r is None ==> wallet_index(self@, name@) is None,
            r matches Some(i) ==> wallet_index(self@, name@) == Some(i as int),
            r matches Some(i) ==> i < self.ledgers@.len() && self.ledgers@[i as int].inv() && self@[i as int].1 == self.ledgers@[i as int]@,
    {
        let mut i: usize = 0;
        while i < self.names.len()
            invariant
                self.inv(),
                i <= self.names@.len(),
                forall|k: int| 0 <= k < i ==> self.names@[k]@ != name@,
            decreases self.names@.len() - i,
        {
            if self.names[i] == *name {
                proof {
                    assert(self@[i as int].0 == name@);
                    assert(self.ledgers@[i as int].inv());
                    let j = choose|j: int| 0 <= j < self@.len() && (#[trigger] self@[j]).0 == name@;
                    if j != i {
                        if j < i {
                            assert(self.names@[j]@ != self.names@[i as int]@);
                        } else {
                            assert(self.names@[i as int]@ != self.names@[j]@);
                        }
                    }
                }
                return Some(i);
            }
            i = i + 1;
        }
        proof {
            assert forall|k: int| 0 <= k < self@.len() implies (#[trigger] self@[k]).0 != name@ by {
                assert(self@[k].0 == self.names@[k]@);
            }
        }
        None
    }

    /// Names of all wallets.
    pub fn list_wallets(&self) -> (r: Vec<String>)
        requires
            self.inv(),
        ensures
            r@.len() == self@.len(),
            forall|i: int| 0 <= i < r@.len() ==> #[trigger] r@[i]@ == self@[i].0,
    {
        let mut out: Vec<String> = Vec::new();
        let mut i: usize = 0;
        while i < self.names.len()
            invariant
                i <= self.names@.len(),
                self.inv(),
                out@.len() == i,
                forall|k: int| 0 <= k < i ==> #[trigger] out@[k]@ == self@[k].0,
            decreases self.names@.len() - i,
        {
            out.push(self.names[i].clone());
            i = i + 1;
        }
        out
    }

    /// Adds a wallet named `name`, unless one has that name already.
    pub fn create_wallet(&mut self, name: String, covenant: Vec<u8>, password: &[u8]) -> (r:
        Result<(), CreateWalletError>)
        requires
            old(self).inv(),
        ensures
            final(self).inv(),
            wallet_index(old(self)@, name@) is Some ==> r == Err::<(), CreateWalletError>(
                CreateWalletError::WalletExists,
            ) && final(self)@ == old(self)@,
            wallet_index(old(self)@, name@) is None ==> r is Ok && final(self)@.len() == old(self)@.len() + 1
                && final(self)@.subrange(0, old(self)@.len() as int) == old(self)@ && final(self)@.last().0
                == name@ && fresh_wallet(final(self)@.last().1, covenant@, password@),
    {
        if self.find(&name).is_some() {
            return Err(CreateWalletError::WalletExists);
        }
        let w = WalletLedger::new(covenant, password);
        let ghost v0 = self@;
        self.names.push(name);
        self.ledgers.push(w);
        proof {
            assert(self@.subrange(0, v0.len() as int) =~= v0);
            assert forall|i: int, j: int| 0 <= i < j < self.names@.len() implies self.names@[i]@ != self.names@[j]@ by {
                if j == v0.len() {
                    assert(v0[i].0 == self.names@[i]@);
                }
            }
            assert forall|i: int| 0 <= i < self.ledgers@.len() implies (#[trigger] self.ledgers@[i]).inv() by {
                if i < v0.len() {
                    assert(self.ledgers@[i] == old(self).ledgers@[i]);
                }
            }
        }
        Ok(())
    }

    /// The front page of the wallet `name`.
    pub fn wallet_summary(&self, name: &String, network: NetID, staked_microsym: u128) -> (r: Result<
        WalletSummary,
        WalletAccessError,
    >)
        requires
            self.inv(),
        ensures
            wallet_index(self@, name@) is None ==> r == Err::<WalletSummary, WalletAccessError>(
                WalletAccessError::NotFound,
            ),
            wallet_index(self@, name@) matches Some(i) ==> r matches Ok(s) && s.total_micromel
                == capped_balance(coin_mapping(self@[i].1, false, false), crate::types::Denom::Mel)
                && (forall|d: crate::types::Denom|
                #[trigger] balance_lookup(s.detailed_balance@, d) == capped_balance(
                    coin_mapping(self@[i].1, false, false),
                    d,
                )) && s.staked_microsym == staked_microsym && s.network == network && s.address
                == self@[i].1.address && s.locked == self@[i].1.locked,
    {
        match self.find(name) {
            None => Err(WalletAccessError::NotFound),
            Some(i) => Ok(self.ledgers[i].summary(network, staked_microsym)),
        }
    }

    /// The spendable coins of the wallet `name`.
    pub fn dump_coins(&self, name: &String) -> (r: Result<Vec<(CoinID, CoinData)>, WalletAccessError>)
        requires
            self.inv(),
        ensures
            wallet_index(self@, name@) is None ==> r == Err::<Vec<(CoinID, CoinData)>, WalletAccessError>(
                WalletAccessError::NotFound,
            ),
            wallet_index(self@, name@) matches Some(i) ==> r matches Ok(c) && pairs_view(c@) == coin_mapping(
                self@[i].1,
                false,
                false,
            ),
    {
        match self.find(name) {
            None => Err(WalletAccessError::NotFound),
            Some(i) => Ok(self.ledgers[i].get_coin_mapping(false, false)),
        }
    }

    /// The history of the wallet `name`, with confirmation heights.
    pub fn dump_transactions(&self, name: &String) -> (r: Result<Vec<(TxHash, Option<u64>)>, WalletAccessError>)
        requires
            self.inv(),
        ensures
            wallet_index(self@, name@) is None ==> r == Err::<Vec<(TxHash, Option<u64>)>, WalletAccessError>(
                WalletAccessError::NotFound,
            ),
            wallet_index(self@, name@) matches Some(i) ==> r matches Ok(t) && t@.len() == self@[i].1.history.len()
                && forall|k: int|
                0 <= k < t@.len() ==> #[trigger] t@[k] == (
                    self@[i].1.history[k].0,
                    confirmed_height(self@[i].1.seen, self@[i].1.history[k].0, 256),
                ),
    {
        match self.find(name) {
            None => Err(WalletAccessError::NotFound),
            Some(i) => Ok(self.ledgers[i].dump_transactions()),
        }
    }

    /// Locks the wallet `name`.
    pub fn lock_wallet(&mut self, name: &String) -> (r: Result<(), WalletAccessError>)
        requires
            old(self).inv(),
        ensures
            final(self).inv(),
            wallet_index(old(self)@, name@) is None ==> r == Err::<(), WalletAccessError>(
                WalletAccessError::NotFound,
            ) && final(self)@ == old(self)@,
            wallet_index(old(self)@, name@) matches Some(i) ==> r is Ok && final(self)@ == old(self)@.update(
                i,
                (name@, old(self)@[i].1.locked_view()),
            ),
    {
        match self.find(name) {
            None => Err(WalletAccessError::NotFound),
            Some(i) => {
                self.ledgers[i].lock();
                proof {
                    self.lemma_update(old(self), i as int);
                }
                Ok(())
            },
        }
    }

    /// Unlocks the wallet `name` with `password`, holding `sk`, the key its
    /// storage gives up for that password; a wrong password leaves it locked
    /// and fails with `Locked`.
    pub fn unlock_wallet(&mut self, name: &String, password: &[u8], sk: [u8; 64]) -> (r: Result<
        (),
        WalletAccessError,
    >)
        requires
            old(self).inv(),
        ensures
            final(self).inv(),
            wallet_index(old(self)@, name@) is None ==> r == Err::<(), WalletAccessError>(
                WalletAccessError::NotFound,
            ) && final(self)@ == old(self)@,
            wallet_index(old(self)@, name@) matches Some(i) ==> {
                &&& crate::crypto::blake3_of(password@) == old(self)@[i].1.password_hash ==> r is Ok
                    && final(self)@ == old(self)@.update(i, (name@, old(self)@[i].1.unlocked_view(sk@)))
                &&& crate::crypto::blake3_of(password@) != old(self)@[i].1.password_hash ==> r == Err::<
                    (),
                    WalletAccessError,
                >(WalletAccessError::Locked) && final(self)@ == old(self)@
            },
    {
        match self.find(name) {
            None => Err(WalletAccessError::NotFound),
            Some(i) => {
                let r = self.ledgers[i].unlock(password, sk);
                proof {
                    self.lemma_update(old(self), i as int);
                    if r is Err {
                        assert(self@ =~= old(self)@);
                    }
                }
                r
            },
        }
    }

    /// The secret key of the unlocked wallet `name`, given its password.
    pub fn export_sk(&self, name: &String, password: &[u8]) -> (r: Result<[u8; 64], WalletAccessError>)
        requires
            self.inv(),
        ensures
            wallet_index(self@, name@) is None ==> r == Err::<[u8; 64], WalletAccessError>(
                WalletAccessError::NotFound,
            ),
            wallet_index(self@, name@) matches Some(i) ==> {
                &&& crate::crypto::blake3_of(password@) == self@[i].1.password_hash && !self@[i].1.locked
                    ==> (r matches Ok(k) && k@ == self@[i].1.secret)
                &&& crate::crypto::blake3_of(password@) != self@[i].1.password_hash || self@[i].1.locked
                    ==> r == Err::<[u8; 64], WalletAccessError>(WalletAccessError::Locked)
            },
    {
        match self.find(name) {
            None => Err(WalletAccessError::NotFound),
            Some(i) => self.ledgers[i].export_sk(password),
        }
    }

    /// After a change to wallet `i` alone, the registry's view changes at `i` alone.
    proof fn lemma_update(&self, before: &WalletRegistry, i: int)
        requires
            before.inv(),
            0 <= i < before.ledgers@.len(),
            self.names@ == before.names@,
            self.ledgers@ == before.ledgers@.update(i, self.ledgers@[i]),
            self.ledgers@[i].inv(),
        ensures
            self.inv(),
            self@ == before@.update(i, (before@[i].0, self.ledgers@[i]@)),
    {
        assert(self@ =~= before@.update(i, (before@[i].0, self.ledgers@[i]@)));
        assert forall|k: int| 0 <= k < self.ledgers@.len() implies (#[trigger] self.ledgers@[k]).inv() by {
            if k != i {
                assert(self.ledgers@[k] == before.ledgers@[k]);
            }
        }
    }

    /// Prepares a transaction from the wallet `name` (see `prepare`): its
    /// spendable coins, counting the change of transactions awaiting
    /// confirmation, are picked from, change returns to its address, and the
    /// inputs are signed by `signer` or, when none is given, by the wallet.
    pub fn prepare_tx(
        &self,
        name: &String,
        args: &PrepareTxArgs,
        resolved: &Vec<Option<CoinData>>,
        fee_multiplier: u128,
        signer: Option<Signer>,
    ) -> (r: Result<Transaction, NeedWallet<PrepareTxError>>)
        requires
            self.inv(),
            resolved@.len() == args.inputs@.len(),
            within_limits(*args, resolved@),
        ensures
            wallet_index(self@, name@) is None ==> r == Err::<Transaction, NeedWallet<PrepareTxError>>(
                NeedWallet::Wallet(WalletAccessError::NotFound),
            ),
            wallet_index(self@, name@) matches Some(i) ==> prepared_from(
                r,
                self@[i].1,
                *args,
                resolved@,
                fee_multiplier,
                signer_covenant(signer, self@[i].1),
                signer_has_key(signer, self@[i].1),
            ),
    {
        match self.find(name) {
            None => Err(NeedWallet::Wallet(WalletAccessError::NotFound)),
            Some(i) => {
                let l = &self.ledgers[i];
                let sg = match signer {
                    Some(s) => s,
                    None => l.signer(),
                };
                let avail = l.get_coin_mapping(false, false);
                let r = prepare(args, resolved, &avail, fee_multiplier, &sg, l.address());
                proof {
                    let w = self@[i as int].1;
                    assert(pairs_view(avail@) == coin_mapping(w, false, false));
                    assert(sg.covenant@ == signer_covenant(signer, w));
                    assert((sg.key is Some) == signer_has_key(signer, w));
                    if r is Ok && inputs_ok(resolved@, tx_covenants(*args, sg.covenant@)) {
                        assert(with_sigs(r->Ok_0@, seq![]).outputs == r->Ok_0@.outputs);
                    }
                    assert(prepared_from(r, w, *args, resolved@, fee_multiplier, sg.covenant@, sg.key is Some));
                }
                r
            },
        }
    }

    /// Records in the wallet `name` a faucet transaction paying the wallet
    /// itself (see `faucet_tx`), refused on the main network.
    pub fn send_faucet(&mut self, name: &String, network: NetID, nonce: Vec<u8>, timeout: u64) -> (r: Result<
        TxHash,
        NeedWallet<TransactionError>,
    >)
        requires
            old(self).inv(),
        ensures
            final(self).inv(),
            wallet_index(old(self)@, name@) is None ==> r == Err::<TxHash, NeedWallet<TransactionError>>(
                NeedWallet::Wallet(WalletAccessError::NotFound),
            ) && final(self)@ == old(self)@,
            wallet_index(old(self)@, name@) is Some && !faucet_allowed(network) ==> r == Err::<
                TxHash,
                NeedWallet<TransactionError>,
            >(NeedWallet::Other(TransactionError::InvalidFaucet)) && final(self)@ == old(self)@,
            wallet_index(old(self)@, name@) matches Some(i) ==> (faucet_allowed(network) ==> {
                let tx = faucet_view(old(self)@[i].1.address, nonce@);
                &&& r == Ok::<TxHash, NeedWallet<TransactionError>>(tx_hash(tx))
                &&& final(self)@ == old(self)@.update(i, (name@, committed(old(self)@[i].1, tx, timeout)))
            }),
    {
        match self.find(name) {
            None => Err(NeedWallet::Wallet(WalletAccessError::NotFound)),
            Some(i) => {
                let to = self.ledgers[i].address();
                let tx = match faucet_tx(network, to, nonce) {
                    Ok(tx) => tx,
                    Err(e) => {
                        return Err(NeedWallet::Other(e));
                    },
                };
                proof {
                    let v = faucet_view(to, nonce@);
                    crate::select::lemma_value_total_nonneg(v.outputs);
                    assert(v.outputs.drop_last() =~= Seq::<CoinDataView>::empty());
                    assert(crate::select::value_total(Seq::<CoinDataView>::empty()) == 0);
                    assert(trackable(v));
                    assert forall|c: CoinID| v.inputs.contains(c) implies !spent_before(self@[i as int].1, c) by {}
                }
                self.commit_sent(name, tx, timeout)
            },
        }
    }

    /// Records in the wallet `name` that `tx` was sent (see
    /// `WalletLedger::commit_sent`).
    pub fn commit_sent(&mut self, name: &String, tx: Transaction, timeout: u64) -> (r: Result<
        TxHash,
        NeedWallet<TransactionError>,
    >)
        requires
            old(self).inv(),
        ensures
            final(self).inv(),
            wallet_index(old(self)@, name@) is None ==> r == Err::<TxHash, NeedWallet<TransactionError>>(
                NeedWallet::Wallet(WalletAccessError::NotFound),
            ) && final(self)@ == old(self)@,
            wallet_index(old(self)@, name@) matches Some(i) ==> {
                let w = old(self)@[i].1;
                &&& r matches Ok(h) ==> h == tx_hash(tx@) && final(self)@ == old(self)@.update(
                    i,
                    (name@, committed(w, tx@, timeout)),
                )
                &&& r matches Err(NeedWallet::Other(e)) ==> final(self)@ == old(self)@ && (e
                    == TransactionError::Malformed || e is Conflict)
                &&& r is Err ==> (r matches Err(NeedWallet::Other(_)))
                &&& (trackable(tx@) && forall|c: CoinID|
                    tx@.inputs.contains(c) ==> !#[trigger] spent_before(w, c)) ==> r is Ok
            },
    {
        match self.find(name) {
            None => Err(NeedWallet::Wallet(WalletAccessError::NotFound)),
            Some(i) => {
                let r = self.ledgers[i].commit_sent(tx, timeout);
                proof {
                    self.lemma_update(old(self), i as int);
                    if r is Err {
                        assert(self@ =~= old(self)@);
                    }
                }
                match r {
                    Ok(h) => Ok(h),
                    Err(e) => Err(NeedWallet::Other(e)),
                }
            },
        }
    }

    /// How the transaction `h` changed the balances of the wallet `name`;
    /// `None` when the wallet has no record of it.
    pub fn tx_balance(&self, name: &String, h: TxHash) -> (r: Result<Option<TxBalance>, WalletAccessError>)
        requires
            self.inv(),
        ensures
            wallet_index(self@, name@) is None ==> r == Err::<Option<TxBalance>, WalletAccessError>(
                WalletAccessError::NotFound,
            ),
            wallet_index(self@, name@) matches Some(i) ==> {
                let w = self@[i].1;
                &&& r is Ok
                &&& latest(w.history, h) is None ==> r->Ok_0 is None
                &&& latest(w.history, h) matches Some(k) ==> (r->Ok_0 matches Some(b) && balance_of(
                    b,
                    w,
                    h,
                    w.history[k].1,
                ))
            },
    {
        match self.find(name) {
            None => Err(WalletAccessError::NotFound),
            Some(i) => Ok(self.ledgers[i].tx_balance(h)),
        }
    }

    /// Where the transaction `h` stands for the wallet `name`: `None` when
    /// the wallet never recorded it, an error when it was given up without
    /// any output confirmed.
    pub fn tx_status(&self, name: &String, h: TxHash) -> (r: Result<
        Option<TransactionStatus>,
        NeedWallet<TransactionError>,
    >)
        requires
            self.inv(),
        ensures
            wallet_index(self@, name@) is None ==> r == Err::<Option<TransactionStatus>, NeedWallet<TransactionError>>(
                NeedWallet::Wallet(WalletAccessError::NotFound),
            ),
            wallet_index(self@, name@) matches Some(i) ==> {
                let w = self@[i].1;
                &&& tx_state(w, h) is NotFound ==> r == Ok::<Option<TransactionStatus>, NeedWallet<TransactionError>>(None)
                &&& tx_state(w, h) is Lost ==> r == Err::<Option<TransactionStatus>, NeedWallet<TransactionError>>(
                    NeedWallet::Other(TransactionError::Lost(h)),
                )
                &&& tx_state(w, h) is Pending ==> (r matches Ok(Some(st)) && st.confirmed_height is None)
                &&& tx_state(w, h) matches TxState::Confirmed(x) ==> (r matches Ok(Some(st))
                    && st.confirmed_height == Some(x))
                &&& r matches Ok(Some(st)) ==> (latest(w.history, h) matches Some(k) && st.raw@
                    == w.history[k].1 && st.outputs@.map_values(|a: crate::types::AnnCoinID| ann_view(a))
                    == annotated(h, w.history[k].1.outputs, w.address))
            },
    {
        match self.find(name) {
            None => Err(NeedWallet::Wallet(WalletAccessError::NotFound)),
            Some(i) => match self.ledgers[i].tx_status(h) {
                Ok(st) => Ok(Some(st)),
                Err(TransactionError::NotFound(_)) => Ok(None),
                Err(e) => Err(NeedWallet::Other(e)),
            },
        }
    }

    /// Records in the wallet `name` that output `id` was confirmed at `height`.
    pub fn confirm_output(&mut self, name: &String, id: CoinID, height: u64) -> (r: Result<(), WalletAccessError>)
        requires
            old(self).inv(),
        ensures
            final(self).inv(),
            wallet_index(old(self)@, name@) is None ==> r == Err::<(), WalletAccessError>(
                WalletAccessError::NotFound,
            ) && final(self)@ == old(self)@,
            wallet_index(old(self)@, name@) matches Some(i) ==> r is Ok && final(self)@ == old(self)@.update(
                i,
                (name@, after_confirmation(old(self)@[i].1, id, height)),
            ),
    {
        match self.find(name) {
            None => Err(WalletAccessError::NotFound),
            Some(i) => {
                self.ledgers[i].confirm_output(id, height);
                proof {
                    self.lemma_update(old(self), i as int);
                }
                Ok(())
            },
        }
    }

    /// Offers a coin seen on chain to the wallet `name`.
    pub fn add_coin(&mut self, name: &String, id: CoinID, data: CoinData, height: u64) -> (r: Result<
        (),
        WalletAccessError,
    >)
        requires
            old(self).inv(),
        ensures
            final(self).inv(),
            wallet_index(old(self)@, name@) is None ==> r == Err::<(), WalletAccessError>(
                WalletAccessError::NotFound,
            ) && final(self)@ == old(self)@,
            wallet_index(old(self)@, name@) matches Some(i) ==> r is Ok && (accepts_coin(
                old(self)@[i].1,
                id,
                data@,
            ) ==> final(self)@ == old(self)@.update(
                i,
                (name@, WalletView { coins: old(self)@[i].1.coins.push((id, data@, height)), ..old(self)@[i].1 }),
            )) && (!accepts_coin(old(self)@[i].1, id, data@) ==> final(self)@ == old(self)@),
    {
        match self.find(name) {
            None => Err(WalletAccessError::NotFound),
            Some(i) => {
                let ghost dv = data@;
                self.ledgers[i].add_coin(id, data, height);
                proof {
                    self.lemma_update(old(self), i as int);
                    if !accepts_coin(old(self)@[i as int].1, id, dv) {
                        assert(self@ =~= old(self)@);
                    }
                }
                Ok(())
            },
        }
    }

    /// Gives up, in the wallet `name`, the transactions whose timeout is
    /// below `height`.
    pub fn expire(&mut self, name: &String, height: u64) -> (r: Result<(), WalletAccessError>)
        requires
            old(self).inv(),
        ensures
            final(self).inv(),
            wallet_index(old(self)@, name@) is None ==> r == Err::<(), WalletAccessError>(
                WalletAccessError::NotFound,
            ) && final(self)@ == old(self)@,
            wallet_index(old(self)@, name@) matches Some(i) ==> r is Ok && final(self)@ == old(self)@.update(
                i,
                (name@, after_expiry(old(self)@[i].1, height)),
            ),
    {
        match self.find(name) {
            None => Err(WalletAccessError::NotFound),
            Some(i) => {
                self.ledgers[i].expire(height);
                proof {
                    self.lemma_update(old(self), i as int);
                }
                Ok(())
            },
        }
    }
}

} // verus!
