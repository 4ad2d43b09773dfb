//! Transaction engine of a wallet daemon for a UTXO chain: coin selection and
//! fees, signing, pending and confirmed tracking, balance reconciliation and
//! swap simulation, with one closed error type per operation.
pub mod types;
pub mod error;
pub mod swap;
pub mod crypto;
pub mod encode;
pub mod select;
pub mod tx;
pub mod ledger;
pub mod facade;
