//! The byte encoding of a transaction that its hash and its size are taken over.
//!
//! Integers are big-endian of fixed width; a byte string or a list carries
//! its length as eight bytes before its contents.
use vstd::prelude::*;
use crate::types::{CoinData, CoinDataView, CoinID, Denom, HashVal, Transaction, TransactionView, TxKind};

verus! {

/// The low `n` bytes of `x`, most significant first.
pub open spec fn be_bytes(x: nat, n: nat) -> Seq<u8>
    decreases n,
{
    if n == 0 {
        seq![]
    } else {
        be_bytes(x / 256, (n - 1) as nat).push((x % 256) as u8)
    }
}

pub proof fn lemma_be_bytes_len(x: nat, n: nat)
    ensures
        be_bytes(x, n).len() == n,
    decreases n,
{
    if n > 0 {
        lemma_be_bytes_len(x / 256, (n - 1) as nat);
    }
}

pub open spec fn enc_hash(h: HashVal) -> Seq<u8> {
    be_bytes(h.hi as nat, 16) + be_bytes(h.lo as nat, 16)
}

pub open spec fn enc_bytes(b: Seq<u8>) -> Seq<u8> {
    be_bytes(b.len(), 8) + b
}

pub open spec fn enc_coin_id(c: CoinID) -> Seq<u8> {
    enc_hash(c.txhash).push(c.index)
}

pub open spec fn enc_denom(d: Denom) -> Seq<u8> {
    match d {
        Denom::NewCoin => seq![0u8],
        Denom::Erg => seq![1u8],
        Denom::Mel => seq![2u8],
        Denom::Sym => seq![3u8],
        Denom::Custom(h) => seq![4u8] + enc_hash(h),
    }
}

pub open spec fn enc_coin_data(o: CoinDataView) -> Seq<u8> {
    enc_hash(o.covhash) + be_bytes(o.value as nat, 16) + enc_denom(o.denom) + enc_bytes(
        o.additional_data,
    )
}

pub open spec fn kind_byte(k: TxKind) -> u8 {
    match k {
        TxKind::Normal => 0x00,
        TxKind::Stake => 0x10,
        TxKind::DoscMint => 0x50,
        TxKind::Swap => 0x51,
        TxKind::LiqDeposit => 0x52,
        TxKind::LiqWithdraw => 0x53,
        TxKind::Faucet => 0xff,
    }
}

pub open spec fn enc_inputs_body(s: Seq<CoinID>) -> Seq<u8>
    decreases s.len(),
{
    if s.len() == 0 {
        seq![]
    } else {
        enc_inputs_body(s.drop_last()) + enc_coin_id(s.last())
    }
}

pub open spec fn enc_outputs_body(s: Seq<CoinDataView>) -> Seq<u8>
    decreases s.len(),
{
    if s.len() == 0 {
        seq![]
    } else {
        enc_outputs_body(s.drop_last()) + enc_coin_data(s.last())
    }
}

pub open spec fn enc_blobs_body(s: Seq<Seq<u8>>) -> Seq<u8>
    decreases s.len(),
{
    if s.len() == 0 {
        seq![]
    } else {
        enc_blobs_body(s.drop_last()) + enc_bytes(s.last())
    }
}

/// Everything of a transaction but its signatures.
pub open spec fn enc_tx_nosigs(tx: TransactionView) -> Seq<u8> {
    seq![kind_byte(tx.kind)] + be_bytes(tx.inputs.len(), 8) + enc_inputs_body(tx.inputs)
        + be_bytes(tx.outputs.len(), 8) + enc_outputs_body(tx.outputs) + be_bytes(
        tx.fee as nat,
        16,
    ) + be_bytes(tx.covenants.len(), 8) + enc_blobs_body(tx.covenants) + enc_bytes(tx.data)
}

/// Appends the low `n` bytes of `x`, most significant first.
pub fn put_be(out: &mut Vec<u8>, x: u128, n: usize)
    ensures
        final(out)@ == old(out)@ + be_bytes(x as nat, n as nat),
{
    let mut tmp: Vec<u8> = vec![0u8; n];
    let mut cur: u128 = x;
    let mut i: usize = n;
    while i > 0
        invariant
            i <= n,
            tmp@.len() == n,
            be_bytes(x as nat, n as nat) == be_bytes(cur as nat, i as nat) + tmp@.subrange(
                i as int,
                n as int,
            ),
        decreases i,
    {
        let ghost prev = tmp@;
        let b: u8 = (cur % 256) as u8;
        tmp.set(i - 1, b);
        proof {
            assert(tmp@.subrange(i - 1, n as int) =~= seq![b] + prev.subrange(i as int, n as int));
            assert(be_bytes(cur as nat, i as nat) == be_bytes((cur / 256) as nat, (i - 1) as nat).push(b));
            assert(be_bytes((cur / 256) as nat, (i - 1) as nat).push(b) + prev.subrange(i as int, n as int)
                =~= be_bytes((cur / 256) as nat, (i - 1) as nat) + (seq![b] + prev.subrange(i as int, n as int)));
        }
        cur = cur / 256;
        i = i - 1;
    }
    proof {
        assert(tmp@.subrange(0, n as int) =~= tmp@);
        assert(be_bytes(cur as nat, 0) =~= Seq::<u8>::empty());
        assert(be_bytes(x as nat, n as nat) =~= tmp@);
    }
    out.append(&mut tmp);
}

pub fn put_hash(out: &mut Vec<u8>, h: HashVal)
    ensures
        final(out)@ == old(out)@ + enc_hash(h),
{
    put_be(out, h.hi, 16);
    put_be(out, h.lo, 16);
    proof {
        assert(final(out)@ =~= old(out)@ + enc_hash(h));
    }
}

pub fn put_bytes(out: &mut Vec<u8>, b: &Vec<u8>)
    ensures
        final(out)@ == old(out)@ + enc_bytes(b@),
{
    put_be(out, b.len() as u128, 8);
    let mut i: usize = 0;
    let ghost start = out@;
    while i < b.len()
        invariant
            i <= b@.len(),
            out@ == start + b@.subrange(0, i as int),
        decreases b@.len() - i,
    {
        out.push(b[i]);
        proof {
            assert(b@.subrange(0, i + 1) =~= b@.subrange(0, i as int).push(b@[i as int]));
        }
        i = i + 1;
    }
    proof {
        assert(b@.subrange(0, b@.len() as int) =~= b@);
        assert(final(out)@ =~= old(out)@ + enc_bytes(b@));
    }
}

pub fn put_denom(out: &mut Vec<u8>, d: Denom)
    ensures
        final(out)@ == old(out)@ + enc_denom(d),
{
    match d {
        Denom::NewCoin => out.push(0),
        Denom::Erg => out.push(1),
        Denom::Mel => out.push(2),
        Denom::Sym => out.push(3),
        Denom::Custom(h) => {
            out.push(4);
            put_hash(out, h);
        },
    }
    proof {
        assert(final(out)@ =~= old(out)@ + enc_denom(d));
    }
}

pub fn put_coin_data(out: &mut Vec<u8>, o: &CoinData)
    ensures
        final(out)@ == old(out)@ + enc_coin_data(o@),
{
    put_hash(out, o.covhash);
    put_be(out, o.value, 16);
    put_denom(out, o.denom);
    put_bytes(out, &o.additional_data);
    proof {
        assert(final(out)@ =~= old(out)@ + enc_coin_data(o@));
    }
}

pub fn kind_to_byte(k: TxKind) -> (r: u8)
    ensures
        r == kind_byte(k),
{
    match k {
        TxKind::Normal => 0x00,
        TxKind::Stake => 0x10,
        TxKind::DoscMint => 0x50,
        TxKind::Swap => 0x51,
        TxKind::LiqDeposit => 0x52,
        TxKind::LiqWithdraw => 0x53,
        TxKind::Faucet => 0xff,
    }
}

/// The encoding of a transaction without its signatures.
pub fn encode_nosigs(tx: &Transaction) -> (r: Vec<u8>)
    ensures
        r@ == enc_tx_nosigs(tx@),
{
    let mut out: Vec<u8> = Vec::new();
    out.push(kind_to_byte(tx.kind));
    put_be(&mut out, tx.inputs.len() as u128, 8);
    let ghost s0 = out@;
    let mut i: usize = 0;
    while i < tx.inputs.len()
        invariant
            i <= tx.inputs@.len(),
            out@ == s0 + enc_inputs_body(tx.inputs@.subrange(0, i as int)),
        decreases tx.inputs@.len() - i,
    {
        let c = tx.inputs[i];
        put_hash(&mut out, c.txhash);
        out.push(c.index);
        proof {
            let s = tx.inputs@.subrange(0, i + 1);
            assert(s.drop_last() =~= tx.inputs@.subrange(0, i as int));
        }
        i = i + 1;
        proof {
            assert(out@ =~= s0 + enc_inputs_body(tx.inputs@.subrange(0, i as int)));
        }
    }
    proof {
        assert(tx.inputs@.subrange(0, tx.inputs@.len() as int) =~= tx.inputs@);
    }
    put_be(&mut out, tx.outputs.len() as u128, 8);
    let ghost s1 = out@;
    let ghost outs = tx@.outputs;
    let mut i: usize = 0;
    while i < tx.outputs.len()
        invariant
            i <= tx.outputs@.len(),
            outs == tx.outputs@.map_values(|o: CoinData| o@),
            out@ == s1 + enc_outputs_body(outs.subrange(0, i as int)),
        decreases tx.outputs@.len() - i,
    {
        put_coin_data(&mut out, &tx.outputs[i]);
        proof {
            let s = outs.subrange(0, i + 1);
            assert(s.drop_last() =~= outs.subrange(0, i as int));
            assert(s.last() == tx.outputs@[i as int]@);
        }
        i = i + 1;
        proof {
            assert(out@ =~= s1 + enc_outputs_body(outs.subrange(0, i as int)));
        }
    }
    proof {
        assert(outs.subrange(0, outs.len() as int) =~= outs);
    }
    put_be(&mut out, tx.fee, 16);
    put_be(&mut out, tx.covenants.len() as u128, 8);
    let ghost s2 = out@;
    let ghost covs = tx@.covenants;
    let mut i: usize = 0;
    while i < tx.covenants.len()
        invariant
            i <= tx.covenants@.len(),
            covs == tx.covenants@.map_values(|c: Vec<u8>| c@),
            out@ == s2 + enc_blobs_body(covs.subrange(0, i as int)),
        decreases tx.covenants@.len() - i,
    {
        put_bytes(&mut out, &tx.covenants[i]);
        proof {
            let s = covs.subrange(0, i + 1);
            assert(s.drop_last() =~= covs.subrange(0, i as int));
            assert(s.last() == tx.covenants@[i as int]@);
        }
        i = i + 1;
        proof {
            assert(out@ =~= s2 + enc_blobs_body(covs.subrange(0, i as int)));
        }
    }
    proof {
        assert(covs.subrange(0, covs.len() as int) =~= covs);
    }
    put_bytes(&mut out, &tx.data);
    proof {
        assert(out@ =~= enc_tx_nosigs(tx@));
    }
    out
}

pub proof fn lemma_inputs_body_len(s: Seq<CoinID>)
    ensures
        enc_inputs_body(s).len() == 33 * s.len(),
    decreases s.len(),
{
    if s.len() > 0 {
        lemma_inputs_body_len(s.drop_last());
        lemma_be_bytes_len(s.last().txhash.hi as nat, 16);
        lemma_be_bytes_len(s.last().txhash.lo as nat, 16);
    }
}

pub proof fn lemma_outputs_body_append(a: Seq<CoinDataView>, b: Seq<CoinDataView>)
    ensures
        enc_outputs_body(a + b) == enc_outputs_body(a) + enc_outputs_body(b),
    decreases b.len(),
{
    if b.len() == 0 {
        assert(a + b =~= a);
        assert(enc_outputs_body(a) + enc_outputs_body(b) =~= enc_outputs_body(a));
    } else {
        assert((a + b).drop_last() =~= a + b.drop_last());
        lemma_outputs_body_append(a, b.drop_last());
        assert(enc_outputs_body(a + b) =~= enc_outputs_body(a) + enc_outputs_body(b));
    }
}

/// An output with no additional data encodes in at most 89 bytes.
pub proof fn lemma_outputs_body_bound(s: Seq<CoinDataView>)
    requires
        forall|k: int| 0 <= k < s.len() ==> (#[trigger] s[k]).additional_data.len() == 0,
    ensures
        enc_outputs_body(s).len() <= 89 * s.len(),
    decreases s.len(),
{
    if s.len() > 0 {
        let o = s.last();
        assert(s.drop_last().len() == s.len() - 1);
        assert forall|k: int| 0 <= k < s.drop_last().len() implies (#[trigger] s.drop_last()[k]).additional_data.len() == 0 by {
            assert(s.drop_last()[k] == s[k]);
        }
        lemma_outputs_body_bound(s.drop_last());
        lemma_be_bytes_len(o.covhash.hi as nat, 16);
        lemma_be_bytes_len(o.covhash.lo as nat, 16);
        lemma_be_bytes_len(o.value as nat, 16);
        lemma_be_bytes_len(o.additional_data.len(), 8);
        match o.denom {
            Denom::Custom(h) => {
                lemma_be_bytes_len(h.hi as nat, 16);
                lemma_be_bytes_len(h.lo as nat, 16);
            },
            _ => {},
        }
        assert(enc_coin_data(o).len() <= 89);
    }
}

/// Bytes of a transaction's encoding, by part.
pub proof fn lemma_tx_len(tx: TransactionView)
    ensures
        enc_tx_nosigs(tx).len() == 49 + 33 * tx.inputs.len() + enc_outputs_body(tx.outputs).len()
            + enc_blobs_body(tx.covenants).len() + tx.data.len(),
{
    lemma_inputs_body_len(tx.inputs);
    lemma_be_bytes_len(tx.inputs.len(), 8);
    lemma_be_bytes_len(tx.outputs.len(), 8);
    lemma_be_bytes_len(tx.fee as nat, 16);
    lemma_be_bytes_len(tx.covenants.len(), 8);
    lemma_be_bytes_len(tx.data.len(), 8);
}

} // verus!
