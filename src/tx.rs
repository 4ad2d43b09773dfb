//! Transaction identity, size and signing.
use vstd::prelude::*;
use crate::crypto::{blake3_of, ed25519_sign, ed25519_signature_of, hash_single};
use crate::encode::{enc_hash, enc_tx_nosigs, encode_nosigs, put_hash};
use crate::error::WalletAccessError;
use crate::types::{Address, Transaction, TransactionView, TxHash};
use crate::select::{copy_blobs, copy_ids, copy_outputs};

verus! {

/// The hash of a transaction, taken over everything but its signatures.
pub open spec fn tx_hash(tx: TransactionView) -> TxHash {
    blake3_of(enc_tx_nosigs(tx))
}

/// Bytes a transaction is charged for: its encoding, one 64-byte signature
/// per input with its length, and the ballast.
pub open spec fn tx_weight(tx: TransactionView, ballast: usize) -> int {
    enc_tx_nosigs(tx).len() + 8 + 72 * tx.inputs.len() + ballast
}

/// The message signed for a transaction: the bytes of its hash.
pub open spec fn sign_message(tx: TransactionView) -> Seq<u8> {
    enc_hash(tx_hash(tx))
}

/// `tx` with its signatures replaced by `sigs`.
pub open spec fn with_sigs(tx: TransactionView, sigs: Seq<Seq<u8>>) -> TransactionView {
    TransactionView {
        kind: tx.kind,
        inputs: tx.inputs,
        outputs: tx.outputs,
        fee: tx.fee,
        covenants: tx.covenants,
        data: tx.data,
        sigs,
    }
}

/// The address of a covenant: its hash.
pub open spec fn covenant_address(cov: Seq<u8>) -> Address {
    blake3_of(cov)
}

impl Transaction {
    /// A copy with the same contents.
    pub fn duplicate(&self) -> (r: Transaction)
        ensures
            r@ == self@,
    {
        let r = Transaction {
            kind: self.kind,
            inputs: copy_ids(&self.inputs),
            outputs: copy_outputs(&self.outputs),
            fee: self.fee,
            covenants: copy_blobs(&self.covenants),
            data: self.data.clone(),
            sigs: copy_blobs(&self.sigs),
        };
        proof {
            assert(r@ =~= self@);
        }
        r
    }

    /// The transaction's hash, signatures excluded.
    pub fn hash_nosigs(&self) -> (r: TxHash)
        ensures
            r == tx_hash(self@),
    {
        let bytes = encode_nosigs(self);
        hash_single(bytes.as_slice())
    }

    /// Bytes the fee is charged for, with `ballast` extra bytes.
    pub fn weight(&self, ballast: usize) -> (r: u128)
        ensures
            r == tx_weight(self@, ballast),
    {
        let bytes = encode_nosigs(self);
        bytes.len() as u128 + 8 + 72 * (self.inputs.len() as u128) + ballast as u128
    }
}

/// Address of a covenant.
pub fn address_of(cov: &Vec<u8>) -> (r: Address)
    ensures
        r == covenant_address(cov@),
{
    hash_single(cov.as_slice())
}

/// A signing capability: the secret key, when one is available, and the
/// covenant whose spend condition its signatures satisfy. The wallet's own
/// key and a key supplied for a single call are both signers.
pub struct Signer {
    pub key: Option<[u8; 64]>,
    pub covenant: Vec<u8>,
}

impl Signer {
    /// The covenant this signer's signatures satisfy.
    pub fn covenant(&self) -> (r: Vec<u8>)
        ensures
            r@ == self.covenant@,
    {
        self.covenant.clone()
    }

    /// Signs input `idx` of `tx`: its signature becomes the signature of the
    /// transaction's hash. Fails when no secret key is available.
    pub fn sign_tx(&self, tx: Transaction, idx: usize) -> (r: Result<Transaction, WalletAccessError>)
        requires
            idx < tx.inputs@.len(),
            idx <= tx.sigs@.len(),
        ensures
            self.key is None ==> r == Err::<Transaction, WalletAccessError>(WalletAccessError::Locked),
            self.key is Some ==> r is Ok && r->Ok_0@ == with_sigs(
                tx@,
                if idx == tx@.sigs.len() {
                    tx@.sigs.push(ed25519_signature_of(self.key->Some_0@, sign_message(tx@)))
                } else {
                    tx@.sigs.update(idx as int, ed25519_signature_of(self.key->Some_0@, sign_message(tx@)))
                },
            ),
    {
        match &self.key {
            None => Err(WalletAccessError::Locked),
            Some(sk) => {
                let h = tx.hash_nosigs();
                let mut msg: Vec<u8> = Vec::new();
                put_hash(&mut msg, h);
                proof {
                    assert(msg@ =~= sign_message(tx@));
                }
                let sig = ed25519_sign(sk, msg.as_slice());
                let mut tx = tx;
                let ghost before = tx@;
                if idx == tx.sigs.len() {
                    tx.sigs.push(sig);
                } else {
                    tx.sigs.set(idx, sig);
                }
                proof {
                    assert(tx@.sigs =~= (if idx == before.sigs.len() {
                        before.sigs.push(ed25519_signature_of(sk@, sign_message(before)))
                    } else {
                        before.sigs.update(idx as int, ed25519_signature_of(sk@, sign_message(before)))
                    }));
                    assert(tx@ == with_sigs(before, tx@.sigs));
                }
                Ok(tx)
            },
        }
    }
}

/// Signatures are not part of what is hashed, signed or charged for.
pub proof fn lemma_sigs_not_hashed(tx: TransactionView, sigs: Seq<Seq<u8>>, ballast: usize)
    ensures
        tx_hash(with_sigs(tx, sigs)) == tx_hash(tx),
        sign_message(with_sigs(tx, sigs)) == sign_message(tx),
        tx_weight(with_sigs(tx, sigs), ballast) == tx_weight(tx, ballast),
{
    assert(enc_tx_nosigs(with_sigs(tx, sigs)) =~= enc_tx_nosigs(tx));
}

} // verus!
