use melwalletd_prot::error::{
    CreateWalletError, NeedWallet, PrepareTxError, TransactionError, WalletAccessError,
};
use melwalletd_prot::facade::{WalletRegistry, check_faucet};
use melwalletd_prot::select::within_value_limits;
use melwalletd_prot::tx::address_of;
use melwalletd_prot::types::{
    CoinData, CoinID, Denom, HashVal, NetID, PrepareTxArgs, Transaction, TxKind,
};

const COV: [u8; 4] = [0x42, 0x10, 0x20, 0x30];

fn other_address() -> HashVal {
    HashVal { hi: 77, lo: 88 }
}

fn coin(owner: HashVal, value: u128, denom: Denom) -> CoinData {
    CoinData { covhash: owner, value, denom, additional_data: vec![] }
}

fn args(outputs: Vec<CoinData>) -> PrepareTxArgs {
    PrepareTxArgs {
        kind: TxKind::Normal,
        inputs: vec![],
        outputs,
        covenants: vec![],
        data: vec![],
        nobalance: vec![],
        fee_ballast: 0,
    }
}

/// A registry with the unlocked wallet "w" holding one coin of `value` MEL.
fn funded(value: u128) -> (WalletRegistry, String, CoinID) {
    let mut reg = WalletRegistry::new();
    let name = "w".to_string();
    let sk = tmelcrypt::Ed25519SK::generate();
    reg.create_wallet(name.clone(), COV.to_vec(), b"pw").unwrap();
    let me = address_of(&COV.to_vec());
    let id = CoinID { txhash: HashVal { hi: 1, lo: 2 }, index: 0 };
    reg.add_coin(&name, id, coin(me, value, Denom::Mel), 10).unwrap();
    reg.unlock_wallet(&name, b"pw", sk.0).unwrap();
    (reg, name, id)
}

fn mel_in(outputs: &[CoinData]) -> u128 {
    outputs.iter().filter(|o| o.denom == Denom::Mel).map(|o| o.value).sum()
}

#[test]
fn one_coin_zero_fee_gives_request_and_change() {
    let (reg, name, id) = funded(2_000_000);
    let me = address_of(&COV.to_vec());
    let a = args(vec![coin(other_address(), 1_000_000, Denom::Mel)]);
    let tx = reg.prepare_tx(&name, &a, &vec![], 0, None).unwrap();
    assert_eq!(tx.outputs.len(), 2);
    assert_eq!(tx.outputs[0].value, 1_000_000);
    assert_eq!(tx.outputs[0].covhash, other_address());
    assert_eq!(tx.outputs[1].covhash, me);
    assert!(tx.outputs[1].value >= 900_000);
    assert_eq!(tx.outputs[1].value, 1_000_000);
    assert_eq!(tx.fee, 0);
    assert_eq!(tx.inputs, vec![id]);
    assert_eq!(tx.sigs.len(), 1);
    assert_eq!(tx.covenants, vec![COV.to_vec()]);
}

#[test]
fn fee_covers_weight_and_balances() {
    let (reg, name, _) = funded(2_000_000);
    let mut a = args(vec![coin(other_address(), 1_000_000, Denom::Mel)]);
    a.fee_ballast = 100;
    let tx = reg.prepare_tx(&name, &a, &vec![], 3, None).unwrap();
    let mut unsigned = tx.clone();
    unsigned.sigs.clear();
    assert!(tx.fee >= 3 * unsigned.weight(100));
    assert!(tx.fee > 0);
    assert_eq!(mel_in(&tx.outputs) + tx.fee, 2_000_000);
    assert_eq!(tx.outputs[0].value, 1_000_000);
}

#[test]
fn insufficient_funds_reports_shortfall() {
    let (reg, name, _) = funded(2_000_000);
    let a = args(vec![coin(other_address(), 3_000_000, Denom::Mel)]);
    match reg.prepare_tx(&name, &a, &vec![], 0, None) {
        Err(NeedWallet::Other(PrepareTxError::InsufficientFunds(s, d))) => {
            assert_eq!(s, 1_000_000);
            assert_eq!(d, Denom::Mel);
        },
        _ => panic!("expected insufficient funds"),
    }
    let a = args(vec![coin(other_address(), 5, Denom::Sym)]);
    match reg.prepare_tx(&name, &a, &vec![], 0, None) {
        Err(NeedWallet::Other(PrepareTxError::InsufficientFunds(s, d))) => {
            assert_eq!(s, 5);
            assert_eq!(d, Denom::Sym);
        },
        _ => panic!("expected insufficient funds"),
    }
}

#[test]
fn nobalance_denomination_is_not_picked() {
    let (reg, name, _) = funded(2_000_000);
    let mut a = args(vec![coin(other_address(), 10, Denom::Mel)]);
    a.nobalance = vec![Denom::Mel];
    match reg.prepare_tx(&name, &a, &vec![], 0, None) {
        Err(NeedWallet::Other(PrepareTxError::InsufficientFunds(s, d))) => {
            assert_eq!((s, d), (10, Denom::Mel));
        },
        _ => panic!("an excluded denomination is covered by explicit inputs only"),
    }
}

#[test]
fn explicit_inputs_are_checked() {
    let (reg, name, _) = funded(2_000_000);
    let ext = CoinID { txhash: HashVal { hi: 9, lo: 9 }, index: 1 };
    let mut a = args(vec![coin(other_address(), 10, Denom::Mel)]);
    a.inputs = vec![ext];
    match reg.prepare_tx(&name, &a, &vec![None], 0, None) {
        Err(NeedWallet::Other(PrepareTxError::BadExternalInput(c))) => assert_eq!(c, ext),
        _ => panic!("unknown input must be refused"),
    }
    // a coin locked by a covenant the transaction does not carry
    let foreign = Some(coin(other_address(), 10, Denom::Mel));
    match reg.prepare_tx(&name, &a, &vec![foreign], 0, None) {
        Err(NeedWallet::Other(PrepareTxError::BadExternalInput(c))) => assert_eq!(c, ext),
        _ => panic!("unspendable input must be refused"),
    }
    // with its covenant included it is spent, and no wallet coin is needed
    let vault = vec![5u8, 5];
    a.covenants = vec![vault.clone()];
    let owned = Some(coin(address_of(&vault), 10, Denom::Mel));
    let tx = reg.prepare_tx(&name, &a, &vec![owned], 0, None).unwrap();
    assert_eq!(tx.inputs, vec![ext]);
    assert_eq!(tx.outputs.len(), 1);
    assert_eq!(tx.covenants, vec![vault, COV.to_vec()]);
}

#[test]
fn locked_or_missing_wallet() {
    let (mut reg, name, _) = funded(2_000_000);
    let a = args(vec![coin(other_address(), 1, Denom::Mel)]);
    let missing = "nobody".to_string();
    match reg.prepare_tx(&missing, &a, &vec![], 0, None) {
        Err(NeedWallet::Wallet(e)) => assert_eq!(e, WalletAccessError::NotFound),
        _ => panic!("expected not found"),
    }
    reg.lock_wallet(&name).unwrap();
    match reg.prepare_tx(&name, &a, &vec![], 0, None) {
        Err(NeedWallet::Wallet(e)) => assert_eq!(e, WalletAccessError::Locked),
        _ => panic!("expected locked"),
    }
}

#[test]
fn lock_unlock_and_export() {
    let mut reg = WalletRegistry::new();
    let name = "a".to_string();
    let sk = [7u8; 64];
    reg.create_wallet(name.clone(), vec![1], b"secret").unwrap();
    assert_eq!(
        reg.create_wallet(name.clone(), vec![2], b"x"),
        Err(CreateWalletError::WalletExists)
    );
    let s = reg.wallet_summary(&name, NetID::Testnet, 0).unwrap();
    assert!(s.locked);
    assert_eq!(reg.export_sk(&name, b"secret"), Err(WalletAccessError::Locked));
    assert_eq!(reg.unlock_wallet(&name, b"wrong", sk), Err(WalletAccessError::Locked));
    assert!(reg.wallet_summary(&name, NetID::Testnet, 0).unwrap().locked);
    assert_eq!(reg.unlock_wallet(&name, b"secret", sk), Ok(()));
    assert!(!reg.wallet_summary(&name, NetID::Testnet, 0).unwrap().locked);
    assert_eq!(reg.export_sk(&name, b"wrong"), Err(WalletAccessError::Locked));
    assert_eq!(reg.export_sk(&name, b"secret").unwrap(), sk);
    assert_eq!(reg.lock_wallet(&name), Ok(()));
    assert!(reg.wallet_summary(&name, NetID::Testnet, 0).unwrap().locked);
    assert_eq!(reg.export_sk(&name, b"secret"), Err(WalletAccessError::Locked));
    assert_eq!(reg.lock_wallet(&"b".to_string()), Err(WalletAccessError::NotFound));
    assert_eq!(reg.list_wallets(), vec![name]);
}

#[test]
fn concurrent_prepares_cannot_both_commit() {
    let (mut reg, name, id) = funded(2_000_000);
    let a = args(vec![coin(other_address(), 500_000, Denom::Mel)]);
    let b = args(vec![coin(other_address(), 700_000, Denom::Mel)]);
    let tx_a = reg.prepare_tx(&name, &a, &vec![], 0, None).unwrap();
    let tx_b = reg.prepare_tx(&name, &b, &vec![], 0, None).unwrap();
    assert_eq!(tx_a.inputs, vec![id]);
    assert_eq!(tx_b.inputs, vec![id]);
    let h = reg.commit_sent(&name, tx_a.clone(), 100).unwrap();
    assert_eq!(h, tx_a.hash_nosigs());
    match reg.commit_sent(&name, tx_b, 100) {
        Err(NeedWallet::Other(TransactionError::Conflict(c))) => assert_eq!(c, id),
        _ => panic!("second spend of the coin must be refused"),
    }
    match reg.commit_sent(&name, tx_a, 100) {
        Err(NeedWallet::Other(TransactionError::Conflict(c))) => assert_eq!(c, id),
        _ => panic!("resending must be refused"),
    }
    // the next transaction spends the change of the first
    let c = args(vec![coin(other_address(), 100_000, Denom::Mel)]);
    let tx_c = reg.prepare_tx(&name, &c, &vec![], 0, None).unwrap();
    assert_eq!(tx_c.inputs, vec![CoinID { txhash: h, index: 1 }]);
    assert!(reg.commit_sent(&name, tx_c, 100).is_ok());
}

#[test]
fn status_lifecycle() {
    let (mut reg, name, _) = funded(2_000_000);
    let a = args(vec![coin(other_address(), 500_000, Denom::Mel)]);
    let tx = reg.prepare_tx(&name, &a, &vec![], 0, None).unwrap();
    let h = reg.commit_sent(&name, tx, 50).unwrap();
    let st = reg.tx_status(&name, h).unwrap().unwrap();
    assert_eq!(st.confirmed_height, None);
    assert_eq!(st.outputs.len(), 2);
    assert!(!st.outputs[0].is_change);
    assert!(st.outputs[1].is_change);
    assert_eq!(st.outputs[1].coin_id, CoinID { txhash: h, index: 1 });
    reg.confirm_output(&name, CoinID { txhash: h, index: 0 }, 40).unwrap();
    let st = reg.tx_status(&name, h).unwrap().unwrap();
    assert_eq!(st.confirmed_height, Some(40));
    reg.expire(&name, 1000).unwrap();
    let st = reg.tx_status(&name, h).unwrap().unwrap();
    assert_eq!(st.confirmed_height, Some(40));
    let unknown = HashVal { hi: 3, lo: 3 };
    assert!(reg.tx_status(&name, unknown).unwrap().is_none());
    let dump = reg.dump_transactions(&name).unwrap();
    assert_eq!(dump, vec![(h, Some(40))]);
}

#[test]
fn given_up_transaction_is_lost() {
    let (mut reg, name, id) = funded(2_000_000);
    let a = args(vec![coin(other_address(), 500_000, Denom::Mel)]);
    let tx = reg.prepare_tx(&name, &a, &vec![], 0, None).unwrap();
    let h = reg.commit_sent(&name, tx, 50).unwrap();
    reg.expire(&name, 50).unwrap();
    assert!(reg.tx_status(&name, h).unwrap().is_some());
    reg.expire(&name, 51).unwrap();
    match reg.tx_status(&name, h) {
        Err(NeedWallet::Other(TransactionError::Lost(x))) => assert_eq!(x, h),
        _ => panic!("expected lost"),
    }
    // its coin is spendable again
    let coins = reg.dump_coins(&name).unwrap();
    assert_eq!(coins.len(), 1);
    assert_eq!(coins[0].0, id);
}

#[test]
fn balance_of_sent_transaction() {
    let (mut reg, name, _) = funded(2_000_000);
    let a = args(vec![coin(other_address(), 1_000_000, Denom::Mel)]);
    let tx = reg.prepare_tx(&name, &a, &vec![], 0, None).unwrap();
    let h = reg.commit_sent(&name, tx, 50).unwrap();
    let b = reg.tx_balance(&name, h).unwrap().unwrap();
    assert!(b.0);
    assert_eq!(b.1, TxKind::Normal);
    assert_eq!(b.2, vec![(Denom::Mel, -1_000_000)]);
    let again = reg.tx_balance(&name, h).unwrap().unwrap();
    assert_eq!(again.2, b.2);
    assert!(reg.tx_balance(&name, HashVal { hi: 0, lo: 1 }).unwrap().is_none());
    assert_eq!(
        reg.tx_balance(&"none".to_string(), h).err(),
        Some(WalletAccessError::NotFound)
    );
}

#[test]
fn balance_of_received_transaction() {
    let mut reg = WalletRegistry::new();
    let name = "r".to_string();
    reg.create_wallet(name.clone(), COV.to_vec(), b"pw").unwrap();
    let me = address_of(&COV.to_vec());
    // a transaction from elsewhere paying this wallet 300 SYM, recorded and confirmed
    let incoming = Transaction {
        kind: TxKind::Normal,
        inputs: vec![],
        outputs: vec![coin(me, 300, Denom::Sym), coin(other_address(), 9, Denom::Sym)],
        fee: 4,
        covenants: vec![vec![0xee]],
        data: vec![],
        sigs: vec![],
    };
    let h = reg.commit_sent(&name, incoming, 5).unwrap();
    let b = reg.tx_balance(&name, h).unwrap().unwrap();
    assert!(!b.0);
    let mel = b.2.iter().find(|e| e.0 == Denom::Mel).map(|e| e.1).unwrap_or(0);
    let sym = b.2.iter().find(|e| e.0 == Denom::Sym).map(|e| e.1).unwrap_or(0);
    assert_eq!((mel, sym), (0, 300));
}

#[test]
fn summary_counts_spendable_coins() {
    let (mut reg, name, _) = funded(2_000_000);
    let me = address_of(&COV.to_vec());
    let id2 = CoinID { txhash: HashVal { hi: 5, lo: 5 }, index: 2 };
    reg.add_coin(&name, id2, coin(me, 40, Denom::Sym), 11).unwrap();
    // a coin for someone else is not taken
    let id3 = CoinID { txhash: HashVal { hi: 6, lo: 6 }, index: 0 };
    reg.add_coin(&name, id3, coin(other_address(), 40, Denom::Sym), 11).unwrap();
    let s = reg.wallet_summary(&name, NetID::Mainnet, 12).unwrap();
    assert_eq!(s.total_micromel, 2_000_000);
    assert_eq!(s.staked_microsym, 12);
    assert_eq!(s.network, NetID::Mainnet);
    assert_eq!(s.address, me);
    assert_eq!(s.detailed_balance, vec![(Denom::Mel, 2_000_000), (Denom::Sym, 40)]);
    assert_eq!(reg.dump_coins(&name).unwrap().len(), 2);
}

#[test]
fn faucet_only_off_main_network() {
    assert_eq!(check_faucet(NetID::Mainnet), Err(TransactionError::InvalidFaucet));
    assert_eq!(check_faucet(NetID::Testnet), Ok(()));
    assert_eq!(check_faucet(NetID::Custom(2)), Ok(()));
}

#[test]
fn value_limits() {
    let a = args(vec![coin(other_address(), u128::MAX, Denom::Mel)]);
    assert!(within_value_limits(&a, &vec![]));
    let b = args(vec![coin(other_address(), u128::MAX, Denom::Mel), coin(other_address(), 1, Denom::Sym)]);
    assert!(!within_value_limits(&b, &vec![]));
    let mut c = args(vec![]);
    c.inputs = vec![CoinID { txhash: HashVal { hi: 0, lo: 0 }, index: 0 }; 2];
    let r = vec![Some(coin(other_address(), u128::MAX, Denom::Mel)), Some(coin(other_address(), 1, Denom::Mel))];
    assert!(!within_value_limits(&c, &r));
}

#[test]
fn malformed_transaction_is_refused() {
    let (mut reg, name, _) = funded(10);
    let big = Transaction {
        kind: TxKind::Normal,
        inputs: vec![],
        outputs: vec![coin(other_address(), u128::MAX, Denom::Mel)],
        fee: 0,
        covenants: vec![],
        data: vec![],
        sigs: vec![],
    };
    match reg.commit_sent(&name, big, 5) {
        Err(NeedWallet::Other(TransactionError::Malformed)) => {},
        _ => panic!("an output beyond a balance's range must be refused"),
    }
}

#[test]
fn confirmed_spend_blocks_a_second_spend() {
    let (mut reg, name, id) = funded(2_000_000);
    let a = args(vec![coin(other_address(), 500_000, Denom::Mel)]);
    let b = args(vec![coin(other_address(), 700_000, Denom::Mel)]);
    let tx_a = reg.prepare_tx(&name, &a, &vec![], 0, None).unwrap();
    let tx_b = reg.prepare_tx(&name, &b, &vec![], 0, None).unwrap();
    let h = reg.commit_sent(&name, tx_a, 100).unwrap();
    reg.confirm_output(&name, CoinID { txhash: h, index: 0 }, 30).unwrap();
    assert_eq!(reg.tx_status(&name, h).unwrap().unwrap().confirmed_height, Some(30));
    match reg.commit_sent(&name, tx_b, 100) {
        Err(NeedWallet::Other(TransactionError::Conflict(c))) => assert_eq!(c, id),
        _ => panic!("a coin spent by a confirmed transaction must stay spent"),
    }
}

#[test]
fn zero_multiplier_means_zero_fee() {
    let (reg, name, _) = funded(2_000_000);
    let mut a = args(vec![coin(other_address(), 1_000_000, Denom::Mel)]);
    a.fee_ballast = 5000;
    let tx = reg.prepare_tx(&name, &a, &vec![], 0, None).unwrap();
    assert_eq!(tx.fee, 0);
    assert_eq!(tx.outputs[1].value, 1_000_000);
}

#[test]
fn fee_is_paid_when_funds_cover_it() {
    // one coin barely above the request: the fee still fits in the rest
    let (reg, name, _) = funded(1_000_000 + 10_000);
    let a = args(vec![coin(other_address(), 1_000_000, Denom::Mel)]);
    let tx = reg.prepare_tx(&name, &a, &vec![], 10, None).unwrap();
    let mut unsigned = tx.clone();
    unsigned.sigs.clear();
    assert_eq!(tx.fee, 10 * unsigned.weight(0));
    assert_eq!(mel_in(&tx.outputs) + tx.fee, 1_010_000);
    // a fee larger than what is left fails in MEL only
    match reg.prepare_tx(&name, &a, &vec![], 1_000, None) {
        Err(NeedWallet::Other(PrepareTxError::InsufficientFunds(_, d))) => assert_eq!(d, Denom::Mel),
        _ => panic!("expected a native shortfall"),
    }
}

#[test]
fn faucet_pays_the_wallet() {
    let mut reg = WalletRegistry::new();
    let name = "f".to_string();
    reg.create_wallet(name.clone(), COV.to_vec(), b"pw").unwrap();
    match reg.send_faucet(&name, NetID::Mainnet, vec![1, 2], 9) {
        Err(NeedWallet::Other(e)) => assert_eq!(e, TransactionError::InvalidFaucet),
        _ => panic!("the faucet is refused on the main network"),
    }
    let h = reg.send_faucet(&name, NetID::Testnet, vec![1, 2], 9).unwrap();
    let st = reg.tx_status(&name, h).unwrap().unwrap();
    assert_eq!(st.raw.kind, TxKind::Faucet);
    assert_eq!(st.raw.outputs.len(), 1);
    assert_eq!(st.raw.outputs[0].value, 1_000_000_000);
    assert_eq!(st.raw.outputs[0].covhash, address_of(&COV.to_vec()));
    assert_eq!(st.raw.data, vec![1, 2]);
    assert!(st.outputs[0].is_change);
    let other = reg.send_faucet(&name, NetID::Testnet, vec![3], 9).unwrap();
    assert_ne!(other, h);
    let tx = melwalletd_prot::facade::faucet_tx(NetID::Custom(2), other_address(), vec![]).unwrap();
    assert_eq!((tx.fee, tx.inputs.len()), (0, 0));
}

#[test]
fn balance_lists_native_first_then_first_appearance() {
    let mut reg = WalletRegistry::new();
    let name = "o".to_string();
    reg.create_wallet(name.clone(), COV.to_vec(), b"pw").unwrap();
    let me = address_of(&COV.to_vec());
    let incoming = Transaction {
        kind: TxKind::Normal,
        inputs: vec![],
        outputs: vec![coin(me, 7, Denom::Erg), coin(me, 3, Denom::Sym), coin(me, 2, Denom::Erg)],
        fee: 0,
        covenants: vec![],
        data: vec![],
        sigs: vec![],
    };
    let h = reg.commit_sent(&name, incoming, 5).unwrap();
    let b1 = reg.tx_balance(&name, h).unwrap().unwrap();
    let b2 = reg.tx_balance(&name, h).unwrap().unwrap();
    assert_eq!(b1.2, vec![(Denom::Mel, 0), (Denom::Erg, 9), (Denom::Sym, 3)]);
    assert_eq!(b1.2, b2.2);
}

#[test]
fn created_wallet_uses_its_covenant_and_password() {
    let mut reg = WalletRegistry::new();
    let name = "c".to_string();
    reg.create_wallet(name.clone(), vec![9, 9, 9], b"open sesame").unwrap();
    let s = reg.wallet_summary(&name, NetID::Testnet, 0).unwrap();
    assert_eq!(s.address, address_of(&vec![9, 9, 9]));
    assert_eq!(reg.unlock_wallet(&name, b"open", [0; 64]), Err(WalletAccessError::Locked));
    assert_eq!(reg.unlock_wallet(&name, b"open sesame", [0; 64]), Ok(()));
}
