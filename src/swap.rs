//! Constant-product swap simulation over a copy of a pool's reserves.
use vstd::prelude::*;
use vstd::arithmetic::div_mod::{lemma_fundamental_div_mod, lemma_fundamental_div_mod_converse};
use crate::types::{Denom, PoolKey, PoolState, canonical_key, denom_key, denom_lt};
use crate::error::PoolKeyError;

verus! {

/// `floor(a * b / c)`, for `b <= c`, without leaving 128 bits.
pub fn mul_div(a: u128, b: u128, c: u128) -> (r: u128)
    requires
        c > 0,
        b <= c,
    ensures
        r as int == (a as int * b as int) / (c as int),
{
    let qa: u128 = a / c;
    let ra: u128 = a % c;
    // ra * low == q * c + rem, and ra * pw == qx * c + x
    let mut q: u128 = 0;
    let mut rem: u128 = 0;
    let mut qx: u128 = ra / c;
    let mut x: u128 = ra;
    let mut rest: u128 = b;
    let ghost mut low: int = 0;
    let ghost mut pw: int = 1;
    proof {
        assert(ra / c == 0) by {
            lemma_fundamental_div_mod_converse(ra as int, c as int, 0, ra as int);
        }
    }
    while rest > 0
        invariant
            0 < c,
            ra < c,
            b <= c,
            pw >= 1,
            0 <= low,
            b == low + rest * pw,
            ra * low == q * c + rem,
            rem < c,
            ra * pw == qx * c + x,
            x < c,
            qx < pw,
            q <= low,
        decreases rest,
    {
        let ghost (q0, rem0, qx0, x0, low0, pw0, rest0) = (q as int, rem as int, qx as int, x as int, low, pw, rest as int);
        let bit: u128 = rest % 2;
        proof {
            assert(low0 + pw0 <= b) by (nonlinear_arith)
                requires
                    b == low0 + rest0 * pw0,
                    rest0 >= 1,
                    pw0 >= 1,
            ;
        }
        if bit == 1 {
            proof {
                assert(q0 * c + qx0 * c + rem0 + x0 == ra * (low0 + pw0)) by (nonlinear_arith)
                    requires
                        ra * low0 == q0 * c + rem0,
                        ra * pw0 == qx0 * c + x0,
                ;
                assert(ra * (low0 + pw0) < c * (low0 + pw0)) by (nonlinear_arith)
                    requires
                        ra < c,
                        low0 + pw0 > 0,
                ;
                assert(q0 + qx0 < low0 + pw0) by (nonlinear_arith)
                    requires
                        q0 * c + qx0 * c + rem0 + x0 == ra * (low0 + pw0),
                        ra * (low0 + pw0) < c * (low0 + pw0),
                        rem0 >= 0,
                        x0 >= 0,
                        c > 0,
                ;
            }
            q = q + qx;
            if rem >= c - x {
                proof {
                    assert(q0 + qx0 + 1 < low0 + pw0 + 1) by (nonlinear_arith)
                        requires
                            q0 * c + qx0 * c + rem0 + x0 == ra * (low0 + pw0),
                            ra * (low0 + pw0) < c * (low0 + pw0),
                            rem0 + x0 >= c,
                            c > 0,
                    ;
                }
                rem = rem - (c - x);
                q = q + 1;
                proof {
                    assert(q * c + rem == q0 * c + qx0 * c + rem0 + x0) by (nonlinear_arith)
                        requires
                            q == q0 + qx0 + 1,
                            rem == rem0 + x0 - c,
                    ;
                }
            } else {
                rem = rem + x;
                proof {
                    assert(q * c + rem == q0 * c + qx0 * c + rem0 + x0) by (nonlinear_arith)
                        requires
                            q == q0 + qx0,
                            rem == rem0 + x0,
                    ;
                }
            }
            proof {
                low = low + pw;
            }
        }
        rest = rest / 2;
        proof {
            assert(ra * low == q * c + rem) by (nonlinear_arith)
                requires
                    bit == 1 ==> q0 * c + qx0 * c + rem0 + x0 == ra * (low0 + pw0),
                    bit == 1 ==> low == low0 + pw0,
                    bit == 1 ==> q * c + rem == q0 * c + qx0 * c + rem0 + x0,
                    bit != 1 ==> low == low0 && q == q0 && rem == rem0,
                    ra * low0 == q0 * c + rem0,
            ;
            assert(q * c + rem == (q0 + qx0) * c + rem0 + x0 || bit != 1) by (nonlinear_arith)
                requires
                    bit == 1 ==> q * c + rem == q0 * c + qx0 * c + rem0 + x0,
            ;
        }
        if rest > 0 {
            proof {
                assert(pw0 * 2 <= b) by (nonlinear_arith)
                    requires
                        b == low0 + rest0 * pw0,
                        rest0 >= 2 * rest,
                        rest >= 1,
                        low0 >= 0,
                        pw0 >= 1,
                ;
                assert(qx0 * 2 < 2 * pw0);
            }
            qx = qx * 2;
            if x >= c - x {
                proof {
                    assert(qx0 * 2 + 1 < 2 * pw0) by (nonlinear_arith)
                        requires
                            ra * pw0 == qx0 * c + x0,
                            2 * x0 >= c,
                            ra < c,
                            pw0 >= 1,
                            c > 0,
                    ;
                }
                x = x - (c - x);
                qx = qx + 1;
                proof {
                    assert(qx * c + x == 2 * qx0 * c + 2 * x0) by (nonlinear_arith)
                        requires
                            qx == 2 * qx0 + 1,
                            x == 2 * x0 - c,
                    ;
                }
            } else {
                x = x + x;
                proof {
                    assert(qx * c + x == 2 * qx0 * c + 2 * x0) by (nonlinear_arith)
                        requires
                            qx == 2 * qx0,
                            x == 2 * x0,
                    ;
                }
            }
            proof {
                pw = 2 * pw;
                assert(ra * pw == qx * c + x) by (nonlinear_arith)
                    requires
                        ra * pw0 == qx0 * c + x0,
                        pw == 2 * pw0,
                        qx * c + x == 2 * qx0 * c + 2 * x0,
                ;
            }
        }
        proof {
            assert(b == low + rest * pw) by (nonlinear_arith)
                requires
                    b == low0 + rest0 * pw0,
                    rest0 == 2 * rest + bit,
                    bit == 1 ==> low == low0 + pw0,
                    bit != 1 ==> low == low0,
                    bit == 0 || bit == 1,
                    rest > 0 ==> pw == 2 * pw0,
                    rest == 0 ==> pw == pw0,
            ;
        }
    }
    proof {
        let ai = a as int;
        let bi = b as int;
        let ci = c as int;
        let qai = qa as int;
        let qi = q as int;
        let ri = rem as int;
        assert(low == bi);
        lemma_fundamental_div_mod(ai, ci);
        assert(ai == qai * ci + ra);
        assert(qai * bi <= ai) by (nonlinear_arith)
            requires
                ai == qai * ci + ra,
                bi <= ci,
                qai >= 0,
                ra >= 0,
        ;
        assert(ai * bi == (qai * bi + qi) * ci + ri) by (nonlinear_arith)
            requires
                ai == qai * ci + ra,
                ra * bi == qi * ci + ri,
        ;
        lemma_fundamental_div_mod_converse(ai * bi, ci, qai * bi + qi, ri);
        assert(qai * bi + qi <= ai) by (nonlinear_arith)
            requires
                ai * bi == (qai * bi + qi) * ci + ri,
                bi <= ci,
                ri >= 0,
                ci > 0,
                ai >= 0,
                bi >= 0,
        ;
    }
    qa * b + q
}

/// Reserves on both sides of a pool before and after a trade, in the trade's
/// direction. The price is `out / in`; the impact is `new_price / old_price - 1`.
#[derive(Clone, Copy, Debug, PartialEq, Eq, Structural)]
pub struct PriceImpact {
    pub old_in: u128,
    pub old_out: u128,
    pub new_in: u128,
    pub new_out: u128,
}

impl PriceImpact {
    /// The impact is zero: the price after the trade equals the price before.
    pub open spec fn is_zero(self) -> bool {
        self.new_out as int * self.old_in as int == self.old_out as int * self.new_in as int
    }
}

/// What a simulated swap yields.
#[derive(Clone, Copy, Debug, PartialEq, Eq, Structural)]
pub struct SwapInfo {
    /// Units of the other denomination that the swap obtains.
    pub result: u128,
    pub price_impact: PriceImpact,
    /// The canonical key of the pool traded against.
    pub poolkey: PoolKey,
}

/// Reserve on the deposit side after depositing `v`; deposits beyond the
/// largest representable reserve are absorbed.
pub open spec fn deposited_reserve(r_in: u128, v: u128) -> u128 {
    if r_in as int + v as int > u128::MAX {
        u128::MAX
    } else {
        (r_in + v) as u128
    }
}

/// Units paid out when `v` is deposited against reserves `r_in`, `r_out`,
/// keeping the product of the reserves from falling.
pub open spec fn swap_amount(r_in: u128, r_out: u128, v: u128) -> u128 {
    let d = deposited_reserve(r_in, v);
    if d == 0 {
        0
    } else {
        ((r_out as int * (d - r_in)) / d as int) as u128
    }
}

/// The trade of `v` against reserves `r_in`, `r_out`.
pub open spec fn trade(r_in: u128, r_out: u128, v: u128) -> (u128, PriceImpact) {
    let out = swap_amount(r_in, r_out, v);
    (
        out,
        PriceImpact {
            old_in: r_in,
            old_out: r_out,
            new_in: deposited_reserve(r_in, v),
            new_out: (r_out - out) as u128,
        },
    )
}

/// The swap of `v` units of `from` against `pool`, whose canonical key is `key`.
pub open spec fn swap_result(key: PoolKey, pool: PoolState, from: Denom, v: u128) -> SwapInfo {
    let t = if from == key.left {
        trade(pool.lefts, pool.rights, v)
    } else {
        trade(pool.rights, pool.lefts, v)
    };
    SwapInfo { result: t.0, price_impact: t.1, poolkey: key }
}

fn trade_exec(r_in: u128, r_out: u128, v: u128) -> (r: (u128, PriceImpact))
    ensures
        r == trade(r_in, r_out, v),
{
    let d: u128 = if r_in > u128::MAX - v {
        u128::MAX
    } else {
        r_in + v
    };
    let out: u128 = if d == 0 {
        0
    } else {
        mul_div(r_out, d - r_in, d)
    };
    proof {
        if d > 0 {
            assert(out <= r_out) by (nonlinear_arith)
                requires
                    out as int == (r_out as int * (d - r_in)) / d as int,
                    d - r_in <= d,
                    r_in >= 0,
                    d > 0,
            ;
        }
    }
    (out, PriceImpact { old_in: r_in, old_out: r_out, new_in: d, new_out: r_out - out })
}

/// Simulates swapping `value` units of `from` into `to` against `pool`, the
/// state of the pool named by the pair's canonical key (`None` when the
/// chain has no such pool). The pool itself is left as it was.
pub fn simulate_swap(from: Denom, to: Denom, value: u128, pool: Option<PoolState>) -> (r: Result<
    Option<SwapInfo>,
    PoolKeyError,
>)
    ensures
        canonical_key(PoolKey { left: from, right: to }) is None ==> r == Err::<
            Option<SwapInfo>,
            PoolKeyError,
        >(PoolKeyError(PoolKey { left: from, right: to })),
        canonical_key(PoolKey { left: from, right: to }) is Some && pool is None ==> r == Ok::<
            Option<SwapInfo>,
            PoolKeyError,
        >(None),
        canonical_key(PoolKey { left: from, right: to }) is Some && pool is Some ==> r == Ok::<
            Option<SwapInfo>,
            PoolKeyError,
        >(Some(swap_result(canonical_key(PoolKey { left: from, right: to }).unwrap(), pool.unwrap(), from, value))),
{
    let key = PoolKey::new(from, to);
    match key.to_canonical() {
        None => Err(PoolKeyError(key)),
        Some(k) => match pool {
            None => Ok(None),
            Some(p) => {
                let t = if from == k.left {
                    trade_exec(p.lefts, p.rights, value)
                } else {
                    trade_exec(p.rights, p.lefts, value)
                };
                Ok(Some(SwapInfo { result: t.0, price_impact: t.1, poolkey: k }))
            },
        },
    }
}

/// Swapping nothing yields nothing and leaves the price where it was.
pub proof fn lemma_swap_zero(key: PoolKey, pool: PoolState, from: Denom)
    ensures
        swap_result(key, pool, from, 0).result == 0,
        swap_result(key, pool, from, 0).price_impact.is_zero(),
        swap_result(key, pool, from, 0).price_impact.new_in == swap_result(key, pool, from, 0).price_impact.old_in,
        swap_result(key, pool, from, 0).price_impact.new_out == swap_result(key, pool, from, 0).price_impact.old_out,
{
    let (a, b) = if from == key.left { (pool.lefts, pool.rights) } else { (pool.rights, pool.lefts) };
    assert(deposited_reserve(a, 0) == a);
    if a > 0 {
        assert((b as int * 0) / a as int == 0) by (nonlinear_arith)
            requires
                a > 0,
        ;
    }
}

/// Both directions of a pair name the same canonical pool, and trade against
/// its two reserves in opposite roles.
pub proof fn lemma_swap_directions(a: Denom, b: Denom, pool: PoolState, v: u128)
    requires
        a != b,
    ensures
        canonical_key(PoolKey { left: a, right: b }) == canonical_key(PoolKey { left: b, right: a }),
        ({
            let k = canonical_key(PoolKey { left: a, right: b }).unwrap();
            let ab = swap_result(k, pool, a, v);
            let ba = swap_result(k, pool, b, v);
            &&& ab.poolkey == ba.poolkey
            &&& ab.price_impact.old_in == ba.price_impact.old_out
            &&& ab.price_impact.old_out == ba.price_impact.old_in
            &&& (k.left == a ==> ab == SwapInfo {
                result: trade(pool.lefts, pool.rights, v).0,
                price_impact: trade(pool.lefts, pool.rights, v).1,
                poolkey: k,
            } && ba == SwapInfo {
                result: trade(pool.rights, pool.lefts, v).0,
                price_impact: trade(pool.rights, pool.lefts, v).1,
                poolkey: k,
            })
            &&& (k.left == b ==> ab == SwapInfo {
                result: trade(pool.rights, pool.lefts, v).0,
                price_impact: trade(pool.rights, pool.lefts, v).1,
                poolkey: k,
            } && ba == SwapInfo {
                result: trade(pool.lefts, pool.rights, v).0,
                price_impact: trade(pool.lefts, pool.rights, v).1,
                poolkey: k,
            })
        }),
{
    lemma_denom_order_total(a, b);
}

/// Two distinct denominations are ordered one way or the other, never both.
pub proof fn lemma_denom_order_total(a: Denom, b: Denom)
    requires
        a != b,
    ensures
        denom_lt(a, b) != denom_lt(b, a),
{
    if denom_key(a) == denom_key(b) {
        match a {
            Denom::Custom(ha) => {
                match b {
                    Denom::Custom(hb) => {
                        assert(ha == hb);
                    },
                    _ => {},
                }
            },
            _ => {},
        }
    }
}

} // verus!
