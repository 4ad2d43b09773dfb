use melwalletd_prot::encode::{encode_nosigs, put_be};
use melwalletd_prot::error::{NetworkError, WalletAccessError};
use melwalletd_prot::tx::{Signer, address_of};
use melwalletd_prot::types::{CoinData, CoinID, Denom, HashVal, Transaction, TxKind, txkind_normal};

fn empty_tx() -> Transaction {
    Transaction {
        kind: TxKind::Normal,
        inputs: vec![],
        outputs: vec![],
        fee: 0,
        covenants: vec![],
        data: vec![],
        sigs: vec![],
    }
}

#[test]
fn big_endian_bytes() {
    let mut out = vec![9u8];
    put_be(&mut out, 0x0102, 2);
    assert_eq!(out, vec![9, 1, 2]);
    let mut out = vec![];
    put_be(&mut out, 0x0102, 4);
    assert_eq!(out, vec![0, 0, 1, 2]);
    let mut out = vec![];
    put_be(&mut out, 0x1ff, 1);
    assert_eq!(out, vec![0xff]);
}

#[test]
fn empty_transaction_encoding() {
    let bytes = encode_nosigs(&empty_tx());
    // kind, three empty lists, a 16-byte fee, empty data
    assert_eq!(bytes.len(), 1 + 8 + 8 + 16 + 8 + 8);
    assert!(bytes.iter().all(|b| *b == 0));
    assert_eq!(empty_tx().weight(0), 49 + 8);
    assert_eq!(empty_tx().weight(100), 49 + 8 + 100);
}

#[test]
fn transaction_encoding_fields() {
    let mut tx = empty_tx();
    tx.kind = TxKind::Faucet;
    tx.fee = 0x0a0b;
    tx.inputs.push(CoinID { txhash: HashVal { hi: 1, lo: 2 }, index: 3 });
    tx.outputs.push(CoinData {
        covhash: HashVal { hi: 0, lo: 0 },
        value: 5,
        denom: Denom::Sym,
        additional_data: vec![7, 7],
    });
    let bytes = encode_nosigs(&tx);
    assert_eq!(bytes[0], 0xff);
    assert_eq!(&bytes[1..9], &[0, 0, 0, 0, 0, 0, 0, 1]);
    assert_eq!(bytes[9 + 15], 1);
    assert_eq!(bytes[9 + 31], 2);
    assert_eq!(bytes[9 + 32], 3);
    let o = 9 + 33 + 8;
    assert_eq!(bytes[o + 32 + 15], 5);
    assert_eq!(bytes[o + 48], 3);
    assert_eq!(&bytes[o + 49..o + 59], &[0, 0, 0, 0, 0, 0, 0, 2, 7, 7]);
    let f = o + 59;
    assert_eq!(&bytes[f + 14..f + 16], &[0x0a, 0x0b]);
    assert_eq!(bytes.len(), f + 16 + 8 + 8);
    // signatures are not encoded
    tx.sigs.push(vec![1; 64]);
    assert_eq!(encode_nosigs(&tx), bytes);
    assert_eq!(tx.weight(0), bytes.len() as u128 + 8 + 72);
}

#[test]
fn address_is_blake3_of_covenant() {
    let a = address_of(&vec![]);
    assert_eq!(
        a,
        HashVal { hi: 0xaf1349b9f5f9a1a6a0404dea36dcc949, lo: 0x9bcb25c9adc112b7cc9a93cae41f3262 }
    );
    assert_ne!(address_of(&vec![1]), a);
}

#[test]
fn hash_ignores_signatures() {
    let mut tx = empty_tx();
    let h = tx.hash_nosigs();
    assert_eq!(tx.hash_nosigs(), h);
    tx.sigs.push(vec![3; 64]);
    assert_eq!(tx.hash_nosigs(), h);
    tx.fee = 1;
    assert_ne!(tx.hash_nosigs(), h);
}

#[test]
fn signing_uses_the_key() {
    let sk = tmelcrypt::Ed25519SK::generate();
    let signer = Signer { key: Some(sk.0), covenant: vec![1, 2, 3] };
    let mut tx = empty_tx();
    tx.inputs.push(CoinID { txhash: HashVal { hi: 1, lo: 1 }, index: 0 });
    tx.inputs.push(CoinID { txhash: HashVal { hi: 1, lo: 1 }, index: 1 });
    let h = tx.hash_nosigs();
    let tx = signer.sign_tx(tx, 0).unwrap();
    let tx = signer.sign_tx(tx, 1).unwrap();
    assert_eq!(tx.sigs.len(), 2);
    let mut msg = h.hi.to_be_bytes().to_vec();
    msg.extend_from_slice(&h.lo.to_be_bytes());
    assert!(sk.to_public().verify(&msg, &tx.sigs[0]));
    assert_eq!(tx.sigs[0], tx.sigs[1]);
    assert_eq!(signer.covenant(), vec![1, 2, 3]);
}

#[test]
fn signing_without_key_is_locked() {
    let signer = Signer { key: None, covenant: vec![] };
    let mut tx = empty_tx();
    tx.inputs.push(CoinID { txhash: HashVal { hi: 1, lo: 1 }, index: 0 });
    assert_eq!(signer.sign_tx(tx, 0).err(), Some(WalletAccessError::Locked));
}

#[test]
fn kind_default_and_network_errors() {
    assert_eq!(txkind_normal(), TxKind::Normal);
    assert!(NetworkError::Transient("timeout".to_string()).is_transient());
    assert!(!NetworkError::Fatal("gone".to_string()).is_transient());
}
