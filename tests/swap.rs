use melwalletd_prot::swap::{mul_div, simulate_swap};
use melwalletd_prot::types::{Denom, HashVal, PoolKey, PoolState};

fn pool(lefts: u128, rights: u128) -> PoolState {
    PoolState { lefts, rights, price_accum: 0, liqs: 0 }
}

#[test]
fn mul_div_small_values() {
    assert_eq!(mul_div(10, 3, 4), 7);
    assert_eq!(mul_div(2000, 100, 1100), 181);
    assert_eq!(mul_div(5, 0, 9), 0);
}

#[test]
fn mul_div_does_not_overflow() {
    assert_eq!(mul_div(u128::MAX, u128::MAX, u128::MAX), u128::MAX);
    assert_eq!(mul_div(u128::MAX, 1, 2), u128::MAX / 2);
    assert_eq!(mul_div(u128::MAX, u128::MAX - 1, u128::MAX), u128::MAX - 1);
    let big = 1u128 << 100;
    assert_eq!(mul_div(big, 1 << 90, 1 << 95), 1u128 << 95);
}

#[test]
fn canonical_key_orders_denoms() {
    let k = PoolKey::new(Denom::Sym, Denom::Mel).to_canonical().unwrap();
    assert_eq!(k, PoolKey::new(Denom::Mel, Denom::Sym));
    let k = PoolKey::new(Denom::Mel, Denom::Erg).to_canonical().unwrap();
    assert_eq!(k, PoolKey::new(Denom::Erg, Denom::Mel));
    let k = PoolKey::new(Denom::Erg, Denom::NewCoin).to_canonical().unwrap();
    assert_eq!(k, PoolKey::new(Denom::NewCoin, Denom::Erg));
    // a custom token whose hash starts below b'm' sorts before MEL
    let low = Denom::Custom(HashVal { hi: 0x01 << 120, lo: 0 });
    let k = PoolKey::new(Denom::Mel, low).to_canonical().unwrap();
    assert_eq!(k, PoolKey::new(low, Denom::Mel));
    // one starting with b'm' itself sorts after MEL
    let m = Denom::Custom(HashVal { hi: 0x6d << 120, lo: 0 });
    let k = PoolKey::new(m, Denom::Mel).to_canonical().unwrap();
    assert_eq!(k, PoolKey::new(Denom::Mel, m));
}

#[test]
fn identical_denoms_have_no_pool() {
    assert_eq!(PoolKey::new(Denom::Mel, Denom::Mel).to_canonical(), None);
    let r = simulate_swap(Denom::Sym, Denom::Sym, 10, Some(pool(1, 1)));
    match r {
        Err(e) => assert_eq!(e.0, PoolKey::new(Denom::Sym, Denom::Sym)),
        Ok(_) => panic!("identical denominations must be refused"),
    }
}

#[test]
fn swap_zero_value_changes_nothing() {
    let p = pool(1000, 2000);
    let info = simulate_swap(Denom::Mel, Denom::Sym, 0, Some(p)).unwrap().unwrap();
    assert_eq!(info.result, 0);
    let i = info.price_impact;
    assert_eq!((i.new_in, i.new_out), (i.old_in, i.old_out));
    assert_eq!(i.new_out * i.old_in, i.old_out * i.new_in);
    assert_eq!(p, pool(1000, 2000));
    let again = simulate_swap(Denom::Mel, Denom::Sym, 0, Some(p)).unwrap().unwrap();
    assert_eq!(again, info);
}

#[test]
fn swap_on_missing_pool_is_none() {
    assert_eq!(simulate_swap(Denom::Mel, Denom::Sym, 0, None).unwrap(), None);
    assert_eq!(simulate_swap(Denom::Mel, Denom::Sym, 500, None).unwrap(), None);
}

#[test]
fn swap_both_directions_use_one_pool() {
    let p = pool(1000, 2000);
    let ab = simulate_swap(Denom::Mel, Denom::Sym, 100, Some(p)).unwrap().unwrap();
    let ba = simulate_swap(Denom::Sym, Denom::Mel, 100, Some(p)).unwrap().unwrap();
    assert_eq!(ab.poolkey, PoolKey::new(Denom::Mel, Denom::Sym));
    assert_eq!(ba.poolkey, ab.poolkey);
    // MEL in, SYM out: 2000 * 100 / 1100
    assert_eq!(ab.result, 181);
    assert_eq!((ab.price_impact.old_in, ab.price_impact.old_out), (1000, 2000));
    assert_eq!((ab.price_impact.new_in, ab.price_impact.new_out), (1100, 1819));
    // SYM in, MEL out: 1000 * 100 / 2100
    assert_eq!(ba.result, 47);
    assert_eq!((ba.price_impact.old_in, ba.price_impact.old_out), (2000, 1000));
    assert_eq!((ba.price_impact.new_in, ba.price_impact.new_out), (2100, 953));
}

#[test]
fn swap_into_empty_side_saturates() {
    let p = pool(u128::MAX - 5, 100);
    let info = simulate_swap(Denom::Mel, Denom::Sym, 50, Some(p)).unwrap().unwrap();
    assert_eq!(info.price_impact.new_in, u128::MAX);
    // only 5 of the 50 units fit: 100 * 5 / MAX rounds to zero
    assert_eq!(info.result, 0);
    let p = pool(0, 100);
    let info = simulate_swap(Denom::Mel, Denom::Sym, 7, Some(p)).unwrap().unwrap();
    assert_eq!(info.result, 100);
}
