//! Chain-level values the wallet works with: hashes, denominations, coins,
//! transactions and pool state, each held as plain integers and byte vectors.
use vstd::prelude::*;

verus! {

/// A 256-bit hash, held as its first and last sixteen bytes read big-endian.
#[derive(Clone, Copy, Debug, PartialEq, Eq, Structural, Hash)]
pub struct HashVal {
    pub hi: u128,
    pub lo: u128,
}

/// The hash of a transaction, signatures excluded.
pub type TxHash = HashVal;

/// The hash of a covenant: the address that owns a coin.
pub type Address = HashVal;

/// A kind of asset.
#[derive(Clone, Copy, Debug, PartialEq, Eq, Structural, Hash)]
pub enum Denom {
    Mel,
    Sym,
    Erg,
    NewCoin,
    Custom(TxHash),
}

/// Sort key of a denomination: its canonical bytes compared lexicographically.
/// `NewCoin` is the empty string, `Erg`, `Mel` and `Sym` are the single bytes
/// `d`, `m` and `s`, and a custom token is the 32 bytes of its hash.
pub open spec fn denom_key(d: Denom) -> (int, int, int, int) {
    match d {
        Denom::NewCoin => (-1, 0, 0, 0),
        Denom::Erg => (0x64, 0, 0, 0),
        Denom::Mel => (0x6d, 0, 0, 0),
        Denom::Sym => (0x73, 0, 0, 0),
        Denom::Custom(h) => (h.hi as int / 0x1000000000000000000000000000000, 1, h.hi as int, h.lo as int),
    }
}

pub open spec fn key_lt(a: (int, int, int, int), b: (int, int, int, int)) -> bool {
    a.0 < b.0 || (a.0 == b.0 && (a.1 < b.1 || (a.1 == b.1 && (a.2 < b.2 || (a.2 == b.2
        && a.3 < b.3)))))
}

/// Whether `a` sorts strictly before `b` in canonical order.
pub open spec fn denom_lt(a: Denom, b: Denom) -> bool {
    key_lt(denom_key(a), denom_key(b))
}

/// Whether `a` sorts strictly before `b`.
pub fn denom_precedes(a: Denom, b: Denom) -> (r: bool)
    ensures
        r == denom_lt(a, b),
{
    let ka = denom_sort_key(a);
    let kb = denom_sort_key(b);
    ka.0 < kb.0 || (ka.0 == kb.0 && (ka.1 < kb.1 || (ka.1 == kb.1 && (ka.2 < kb.2 || (ka.2
        == kb.2 && ka.3 < kb.3)))))
}

/// The sort key, shifted by one so that every part is unsigned.
fn denom_sort_key(d: Denom) -> (r: (u16, u8, u128, u128))
    ensures
        r.0 as int - 1 == denom_key(d).0,
        r.1 as int == denom_key(d).1,
        r.2 as int == denom_key(d).2,
        r.3 as int == denom_key(d).3,
{
    match d {
        Denom::NewCoin => (0, 0, 0, 0),
        Denom::Erg => (0x65, 0, 0, 0),
        Denom::Mel => (0x6e, 0, 0, 0),
        Denom::Sym => (0x74, 0, 0, 0),
        Denom::Custom(h) => ((h.hi / 0x1000000000000000000000000000000) as u16 + 1, 1, h.hi, h.lo),
    }
}

/// Identity of a coin: the transaction that created it and the output index.
#[derive(Clone, Copy, Debug, PartialEq, Eq, Structural, Hash)]
pub struct CoinID {
    pub txhash: TxHash,
    pub index: u8,
}

/// Contents of a coin.
#[derive(Clone, Debug)]
pub struct CoinData {
    pub covhash: Address,
    pub value: u128,
    pub denom: Denom,
    pub additional_data: Vec<u8>,
}

pub struct CoinDataView {
    pub covhash: Address,
    pub value: u128,
    pub denom: Denom,
    pub additional_data: Seq<u8>,
}

impl View for CoinData {
    type V = CoinDataView;

    open spec fn view(&self) -> CoinDataView {
        CoinDataView {
            covhash: self.covhash,
            value: self.value,
            denom: self.denom,
            additional_data: self.additional_data@,
        }
    }
}

impl CoinData {
    /// A copy with the same contents.
    pub fn duplicate(&self) -> (r: CoinData)
        ensures
            r@ == self@,
    {
        CoinData {
            covhash: self.covhash,
            value: self.value,
            denom: self.denom,
            additional_data: self.additional_data.clone(),
        }
    }
}

/// What a transaction does.
#[derive(Clone, Copy, Debug, PartialEq, Eq, Structural, Hash)]
pub enum TxKind {
    Normal,
    Stake,
    DoscMint,
    Swap,
    LiqDeposit,
    LiqWithdraw,
    Faucet,
}

/// The kind a prepared transaction has when none is given.
pub fn txkind_normal() -> (r: TxKind)
    ensures
        r == TxKind::Normal,
{
    TxKind::Normal
}

/// A transaction. Its hash covers everything but `sigs`.
#[derive(Clone, Debug)]
pub struct Transaction {
    pub kind: TxKind,
    pub inputs: Vec<CoinID>,
    pub outputs: Vec<CoinData>,
    pub fee: u128,
    pub covenants: Vec<Vec<u8>>,
    pub data: Vec<u8>,
    pub sigs: Vec<Vec<u8>>,
}

pub struct TransactionView {
    pub kind: TxKind,
    pub inputs: Seq<CoinID>,
    pub outputs: Seq<CoinDataView>,
    pub fee: u128,
    pub covenants: Seq<Seq<u8>>,
    pub data: Seq<u8>,
    pub sigs: Seq<Seq<u8>>,
}

impl View for Transaction {
    type V = TransactionView;

    open spec fn view(&self) -> TransactionView {
        TransactionView {
            kind: self.kind,
            inputs: self.inputs@,
            outputs: self.outputs@.map_values(|o: CoinData| o@),
            fee: self.fee,
            covenants: self.covenants@.map_values(|c: Vec<u8>| c@),
            data: self.data@,
            sigs: self.sigs@.map_values(|s: Vec<u8>| s@),
        }
    }
}

/// Network a wallet lives on.
#[derive(Clone, Copy, Debug, PartialEq, Eq, Structural, Hash)]
pub enum NetID {
    Testnet,
    Mainnet,
    Custom(u8),
}

/// An unordered pair of denominations naming a pool.
#[derive(Clone, Copy, Debug, PartialEq, Eq, Structural, Hash)]
pub struct PoolKey {
    pub left: Denom,
    pub right: Denom,
}

/// The canonical form of a pool key: the two sides in canonical order, or
/// nothing when both sides are the same denomination.
pub open spec fn canonical_key(k: PoolKey) -> Option<PoolKey> {
    if k.left == k.right {
        None
    } else if denom_lt(k.left, k.right) {
        Some(k)
    } else {
        Some(PoolKey { left: k.right, right: k.left })
    }
}

impl PoolKey {
    pub fn new(left: Denom, right: Denom) -> (r: PoolKey)
        ensures
            r.left == left,
            r.right == right,
    {
        PoolKey { left, right }
    }

    /// Puts the key in canonical order; fails on a pair of equal denominations.
    pub fn to_canonical(&self) -> (r: Option<PoolKey>)
        ensures
            r == canonical_key(*self),
    {
        if self.left == self.right {
            None
        } else if denom_precedes(self.left, self.right) {
            Some(*self)
        } else {
            Some(PoolKey { left: self.right, right: self.left })
        }
    }
}

/// Reserves of a constant-product pool.
#[derive(Clone, Copy, Debug, PartialEq, Eq, Structural)]
pub struct PoolState {
    pub lefts: u128,
    pub rights: u128,
    pub price_accum: u128,
    pub liqs: u128,
}

/// What a prepared transaction should hold besides the coins that the wallet
/// picks for it.
#[derive(Clone, Debug)]
pub struct PrepareTxArgs {
    pub kind: TxKind,
    /// Inputs that must be spent, beyond those picked from the wallet.
    pub inputs: Vec<CoinID>,
    /// The first outputs of the transaction; change outputs follow them.
    pub outputs: Vec<CoinData>,
    /// Covenants to include beyond the signer's own.
    pub covenants: Vec<Vec<u8>>,
    pub data: Vec<u8>,
    /// Denominations that no wallet coin is picked for and no change returns.
    pub nobalance: Vec<Denom>,
    /// Bytes added to the transaction's size when its fee is computed.
    pub fee_ballast: usize,
}

/// An output of a transaction, marked as change when it returns to the wallet.
#[derive(Clone, Debug)]
pub struct AnnCoinID {
    pub coin_data: CoinData,
    pub is_change: bool,
    pub coin_id: CoinID,
}

/// A tracked transaction, where it was confirmed if it was, and its outputs.
#[derive(Clone, Debug)]
pub struct TransactionStatus {
    pub raw: Transaction,
    pub confirmed_height: Option<u64>,
    pub outputs: Vec<AnnCoinID>,
}

/// What a transaction did to the wallet: whether the wallet sent it, its
/// kind, and the change of balance in each denomination it touched.
#[derive(Clone, Debug)]
pub struct TxBalance(pub bool, pub TxKind, pub Vec<(Denom, i128)>);

/// What the front page of a wallet shows.
#[derive(Clone, Debug)]
pub struct WalletSummary {
    /// Spendable native balance, in base units.
    pub total_micromel: u128,
    /// Spendable balance of each denomination held.
    pub detailed_balance: Vec<(Denom, u128)>,
    /// Native stake that cannot be spent.
    pub staked_microsym: u128,
    pub network: NetID,
    pub address: Address,
    pub locked: bool,
}

} // verus!
