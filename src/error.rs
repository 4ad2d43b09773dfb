//! One closed error type per operation, built from shared leaf errors.
use vstd::prelude::*;
use crate::types::{CoinID, PoolKey, TxHash};

verus! {

/// A problem with accessing the wallet.
#[derive(Clone, Debug, PartialEq, Eq)]
pub enum WalletAccessError {
    NotFound,
    Locked,
    Other(String),
}

/// Why a wallet could not be created.
#[derive(Clone, Debug, PartialEq, Eq)]
pub enum CreateWalletError {
    SecretKey(String),
    WalletExists,
    Other(String),
}

/// Why a transaction could not be prepared.
#[derive(Clone, Debug, PartialEq, Eq)]
pub enum PrepareTxError {
    /// The wallet lacks this much more of this denomination.
    InsufficientFunds(u128, crate::types::Denom),
    /// An explicitly requested input could not be resolved.
    BadExternalInput(CoinID),
    Network(NetworkError),
}

/// Why a transaction could not be sent.
#[derive(Clone, Debug, PartialEq, Eq)]
pub enum SendTxError {
    Wallet(WalletAccessError),
    Network(NetworkError),
}

/// Problems with a tracked transaction.
#[derive(Clone, Debug, PartialEq, Eq)]
pub enum TransactionError {
    NotFound(TxHash),
    InvalidFaucet,
    /// No longer pending, yet no output was ever confirmed.
    Lost(TxHash),
    SendFailed(String),
    /// The coin is already spent by a transaction awaiting confirmation.
    Conflict(CoinID),
    /// The transaction has more outputs than an output index can name, or
    /// moves more value than a balance can hold.
    Malformed,
}

/// Either a wallet access error or the operation's own error.
#[derive(Clone, Debug, PartialEq, Eq)]
pub enum NeedWallet<T> {
    Wallet(WalletAccessError),
    Other(T),
}

/// A network-caused, possibly transient, state-access error.
#[derive(Clone, Debug, PartialEq, Eq)]
pub enum NetworkError {
    /// The caller may retry.
    Transient(String),
    /// The caller must not retry.
    Fatal(String),
}

impl NetworkError {
    /// Whether retrying may help.
    pub fn is_transient(&self) -> (r: bool)
        ensures
            r == (self is Transient),
    {
        match self {
            NetworkError::Transient(_) => true,
            NetworkError::Fatal(_) => false,
        }
    }
}

#[derive(Debug)]
pub struct WalletNotFound;

#[derive(Debug)]
pub struct BadRequest(pub String);

#[derive(Debug)]
pub struct PoolKeyError(pub PoolKey);

#[derive(Debug)]
pub struct InvalidPassword;

#[derive(Debug)]
pub struct InvalidSignature;

#[derive(Debug)]
pub struct DatabaseError(pub String);

#[derive(Debug)]
pub struct HttpStatusError(pub http_types::StatusCode);

#[derive(Debug)]
pub struct FailedUnlock(pub String);

#[derive(Debug)]
pub struct TransactionNotFound(pub TxHash);

#[derive(Debug)]
pub struct InvalidFaucetTransaction;

#[derive(Debug)]
pub struct LostTransaction(pub TxHash);

#[derive(Debug)]
pub struct WalletCreationError(pub String);

/// Declares `http_types::StatusCode`, carried opaquely by `HttpStatusError`.
#[verifier::external_type_specification]
#[verifier::external_body]
pub struct ExStatusCode(http_types::StatusCode);

} // verus!
