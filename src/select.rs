//! Coin selection and fees: builds a balanced, signed transaction from the
//! requested outputs, explicit inputs and the wallet's spendable coins.
use vstd::prelude::*;
use crate::types::{Address, CoinData, CoinDataView, CoinID, Denom, PrepareTxArgs, Transaction};
use crate::error::{NeedWallet, PrepareTxError, WalletAccessError};
use crate::tx::{
    Signer, address_of, covenant_address, lemma_sigs_not_hashed, sign_message, tx_weight, with_sigs,
};
use crate::crypto::ed25519_signature_of;
use crate::encode::{
    enc_blobs_body, enc_outputs_body, lemma_outputs_body_append, lemma_outputs_body_bound, lemma_tx_len,
};

verus! {

/// Total value of the coins in `s` of denomination `d`.
pub open spec fn value_in(s: Seq<CoinDataView>, d: Denom) -> int
    decreases s.len(),
{
    if s.len() == 0 {
        0
    } else {
        value_in(s.drop_last(), d) + if s.last().denom == d {
            s.last().value as int
        } else {
            0
        }
    }
}

/// Total value of the coins in `s`, whatever their denomination.
pub open spec fn value_total(s: Seq<CoinDataView>) -> int
    decreases s.len(),
{
    if s.len() == 0 {
        0
    } else {
        value_total(s.drop_last()) + s.last().value as int
    }
}

/// Views of a list of coins.
pub open spec fn pairs_view(v: Seq<(CoinID, CoinData)>) -> Seq<(CoinID, CoinDataView)> {
    v.map_values(|c: (CoinID, CoinData)| (c.0, c.1@))
}

/// Coins of `avail` at the positions `idx`.
pub open spec fn picked_datas(avail: Seq<(CoinID, CoinDataView)>, idx: Seq<usize>) -> Seq<CoinDataView> {
    idx.map_values(|i: usize| avail[i as int].1)
}

pub open spec fn picked_ids(avail: Seq<(CoinID, CoinDataView)>, idx: Seq<usize>) -> Seq<CoinID> {
    idx.map_values(|i: usize| avail[i as int].0)
}

/// Value of denomination `d` in `avail` that automatic selection may use:
/// coins not among `skip`.
pub open spec fn spendable_in(avail: Seq<(CoinID, CoinDataView)>, skip: Seq<CoinID>, d: Denom) -> int
    decreases avail.len(),
{
    if avail.len() == 0 {
        0
    } else {
        spendable_in(avail.drop_last(), skip, d) + if avail.last().1.denom == d && !skip.contains(
            avail.last().0,
        ) {
            avail.last().1.value as int
        } else {
            0
        }
    }
}

pub proof fn lemma_value_in_append(a: Seq<CoinDataView>, b: Seq<CoinDataView>, d: Denom)
    ensures
        value_in(a + b, d) == value_in(a, d) + value_in(b, d),
    decreases b.len(),
{
    if b.len() == 0 {
        assert(a + b =~= a);
    } else {
        assert((a + b).drop_last() =~= a + b.drop_last());
        lemma_value_in_append(a, b.drop_last(), d);
    }
}

pub proof fn lemma_value_in_nonneg(s: Seq<CoinDataView>, d: Denom)
    ensures
        value_in(s, d) >= 0,
    decreases s.len(),
{
    if s.len() > 0 {
        lemma_value_in_nonneg(s.drop_last(), d);
    }
}

/// Coins that are all of denomination `d` hold no value of any other one,
/// and their value in `d` is their whole value.
pub proof fn lemma_value_in_single_denom(s: Seq<CoinDataView>, d: Denom, e: Denom)
    requires
        forall|k: int| 0 <= k < s.len() ==> s[k].denom == d,
    ensures
        value_in(s, e) == if e == d {
            value_total(s)
        } else {
            0
        },
    decreases s.len(),
{
    if s.len() > 0 {
        lemma_value_in_single_denom(s.drop_last(), d, e);
    }
}

pub proof fn lemma_value_in_absent(s: Seq<CoinDataView>, e: Denom)
    requires
        forall|k: int| 0 <= k < s.len() ==> s[k].denom != e,
    ensures
        value_in(s, e) == 0,
    decreases s.len(),
{
    if s.len() > 0 {
        lemma_value_in_absent(s.drop_last(), e);
    }
}

pub fn contains_id(v: &Vec<CoinID>, id: CoinID) -> (r: bool)
    ensures
        r == v@.contains(id),
{
    let mut i: usize = 0;
    while i < v.len()
        invariant
            i <= v@.len(),
            forall|k: int| 0 <= k < i ==> v@[k] != id,
        decreases v@.len() - i,
    {
        if v[i] == id {
            return true;
        }
        i = i + 1;
    }
    false
}

pub fn contains_denom(v: &Vec<Denom>, d: Denom) -> (r: bool)
    ensures
        r == v@.contains(d),
{
    let mut i: usize = 0;
    while i < v.len()
        invariant
            i <= v@.len(),
            forall|k: int| 0 <= k < i ==> v@[k] != d,
        decreases v@.len() - i,
    {
        if v[i] == d {
            return true;
        }
        i = i + 1;
    }
    false
}

/// Picks, in order, coins of denomination `d` from `avail` that are not in
/// `skip`, until they are worth `need`. Returns the positions picked, what is
/// still missing and what the picked coins exceed `need` by.
pub fn pick_denom(avail: &Vec<(CoinID, CoinData)>, skip: &Vec<CoinID>, d: Denom, need: u128) -> (r: (
    Vec<usize>,
    u128,
    u128,
    Vec<CoinID>,
))
    ensures
        r.3@ == picked_ids(pairs_view(avail@), r.0@),
        need == 0 ==> r.0@.len() == 0 && r.2 == 0,
        r.0@.len() <= pairs_view(avail@).len(),
        forall|k: int|
            0 <= k < r.0@.len() ==> {
                &&& r.0@[k] < pairs_view(avail@).len()
                &&& pairs_view(avail@)[r.0@[k] as int].1.denom == d
                &&& !skip@.contains(pairs_view(avail@)[r.0@[k] as int].0)
            },
        forall|k: int, l: int| 0 <= k < l < r.0@.len() ==> r.0@[k] < r.0@[l],
        value_total(picked_datas(pairs_view(avail@), r.0@)) == need - r.1 + r.2,
        r.1 == 0 || r.2 == 0,
        r.1 <= need,
        (r.1 > 0) == (spendable_in(pairs_view(avail@), skip@, d) < need),
        r.1 > 0 ==> r.1 == need - spendable_in(pairs_view(avail@), skip@, d),
{
    let mut picked: Vec<usize> = Vec::new();
    let mut ids: Vec<CoinID> = Vec::new();
    let mut missing: u128 = need;
    let mut surplus: u128 = 0;
    let mut i: usize = 0;
    while i < avail.len()
        invariant
            i <= pairs_view(avail@).len(),
            forall|k: int|
                0 <= k < picked@.len() ==> {
                    &&& picked@[k] < i
                    &&& pairs_view(avail@)[picked@[k] as int].1.denom == d
                    &&& !skip@.contains(pairs_view(avail@)[picked@[k] as int].0)
                },
            forall|k: int, l: int| 0 <= k < l < picked@.len() ==> picked@[k] < picked@[l],
            value_total(picked_datas(pairs_view(avail@), picked@)) == need - missing + surplus,
            missing == 0 || surplus == 0,
            missing <= need,
            missing > 0 ==> value_total(picked_datas(pairs_view(avail@), picked@)) == spendable_in(
                pairs_view(avail@).subrange(0, i as int),
                skip@,
                d,
            ),
            missing == 0 ==> spendable_in(pairs_view(avail@).subrange(0, i as int), skip@, d) >= need,
            ids@ == picked_ids(pairs_view(avail@), picked@),
            need == 0 ==> picked@.len() == 0 && surplus == 0 && missing == 0,
            picked@.len() <= i,
        decreases pairs_view(avail@).len() - i,
    {
        let ghost before = picked@;
        proof {
            assert(pairs_view(avail@).subrange(0, i + 1).drop_last() =~= pairs_view(avail@).subrange(0, i as int));
        }
        let c = &avail[i];
        if c.1.denom == d && !contains_id(skip, c.0) {
            if missing > 0 {
                let v = c.1.value;
                if v >= missing {
                    surplus = v - missing;
                    missing = 0;
                } else {
                    missing = missing - v;
                }
                picked.push(i);
                ids.push(c.0);
                proof {
                    assert(picked_datas(pairs_view(avail@), picked@).drop_last() =~= picked_datas(pairs_view(avail@), before));
                    assert(ids@ =~= picked_ids(pairs_view(avail@), picked@));
                }
            }
        }
        i = i + 1;
    }
    proof {
        assert(pairs_view(avail@).subrange(0, pairs_view(avail@).len() as int) =~= pairs_view(avail@));
    }
    (picked, missing, surplus, ids)
}

pub open spec fn datas(v: Seq<CoinData>) -> Seq<CoinDataView> {
    v.map_values(|o: CoinData| o@)
}

/// The fee's share of what denomination `d` must cover.
pub open spec fn fee_part(d: Denom, fee: u128) -> int {
    if d == Denom::Mel {
        fee as int
    } else {
        0
    }
}

/// What the inputs must hold of `d`: the outputs' value and its fee share.
pub open spec fn need_of(outs: Seq<CoinDataView>, d: Denom, fee: u128) -> int {
    value_in(outs, d) + fee_part(d, fee)
}

/// What the wallet may add of `d` beyond the explicit inputs.
pub open spec fn wallet_part(
    avail: Seq<(CoinID, CoinDataView)>,
    skip: Seq<CoinID>,
    nob: Seq<Denom>,
    d: Denom,
) -> int {
    if nob.contains(d) {
        0
    } else {
        spendable_in(avail, skip, d)
    }
}

/// How much of `d` is missing, at most the largest coin value; zero or less
/// when `d` is covered.
pub open spec fn shortfall(
    outs: Seq<CoinDataView>,
    extras: Seq<CoinDataView>,
    avail: Seq<(CoinID, CoinDataView)>,
    skip: Seq<CoinID>,
    nob: Seq<Denom>,
    d: Denom,
    fee: u128,
) -> int {
    if need_of(outs, d, fee) - value_in(extras, d) > u128::MAX {
        u128::MAX as int
    } else {
        need_of(outs, d, fee) - value_in(extras, d) - wallet_part(avail, skip, nob, d)
    }
}

pub proof fn lemma_value_in_le_total(s: Seq<CoinDataView>, d: Denom)
    ensures
        0 <= value_in(s, d) <= value_total(s),
    decreases s.len(),
{
    if s.len() > 0 {
        lemma_value_in_le_total(s.drop_last(), d);
    }
}

pub proof fn lemma_value_total_prefix(s: Seq<CoinDataView>, i: int)
    requires
        0 <= i <= s.len(),
    ensures
        value_total(s.subrange(0, i)) <= value_total(s),
    decreases s.len(),
{
    if i < s.len() {
        assert(s.drop_last().subrange(0, i) =~= s.subrange(0, i));
        lemma_value_total_prefix(s.drop_last(), i);
        lemma_value_in_le_total(s, Denom::Mel);
        lemma_value_total_nonneg(s.drop_last());
    } else {
        assert(s.subrange(0, i) =~= s);
    }
}

pub proof fn lemma_value_total_nonneg(s: Seq<CoinDataView>)
    ensures
        value_total(s) >= 0,
    decreases s.len(),
{
    if s.len() > 0 {
        lemma_value_total_nonneg(s.drop_last());
    }
}

/// Value of `d` among the coins in `v`.
pub fn sum_denom(v: &Vec<CoinData>, d: Denom) -> (r: u128)
    requires
        value_total(datas(v@)) <= u128::MAX,
    ensures
        r == value_in(datas(v@), d),
{
    let ghost s = datas(v@);
    let mut acc: u128 = 0;
    let mut i: usize = 0;
    while i < v.len()
        invariant
            i <= v@.len(),
            s == datas(v@),
            value_total(s) <= u128::MAX,
            acc == value_in(s.subrange(0, i as int), d),
        decreases v@.len() - i,
    {
        proof {
            assert(s.subrange(0, i + 1).drop_last() =~= s.subrange(0, i as int));
            lemma_value_in_le_total(s.subrange(0, i + 1), d);
            lemma_value_total_prefix(s, i + 1);
        }
        if v[i].denom == d {
            acc = acc + v[i].value;
        }
        i = i + 1;
    }
    proof {
        assert(s.subrange(0, s.len() as int) =~= s);
    }
    acc
}

/// The denominations of some coins.
pub open spec fn denoms_of(s: Seq<CoinDataView>) -> Seq<Denom> {
    s.map_values(|o: CoinDataView| o.denom)
}

/// `acc` followed by the denominations of `ds` it lacks, each once, in the
/// order of their first appearance.
pub open spec fn add_new(acc: Seq<Denom>, ds: Seq<Denom>) -> Seq<Denom>
    decreases ds.len(),
{
    if ds.len() == 0 {
        acc
    } else {
        let a = add_new(acc, ds.drop_last());
        if a.contains(ds.last()) {
            a
        } else {
            a.push(ds.last())
        }
    }
}

/// The denominations a transaction must balance: the native one first, then
/// those of the outputs and of the explicit inputs, each once.
pub fn denoms_for(outputs: &Vec<CoinData>, extras: &Vec<CoinData>) -> (r: Vec<Denom>)
    ensures
        r@.contains(Denom::Mel),
        forall|k: int, l: int| 0 <= k < l < r@.len() ==> r@[k] != r@[l],
        forall|k: int| 0 <= k < outputs@.len() ==> r@.contains(#[trigger] outputs@[k].denom),
        forall|k: int| 0 <= k < extras@.len() ==> r@.contains(#[trigger] extras@[k].denom),
        r@.len() <= 1 + outputs@.len() + extras@.len(),
        r@ == add_new(add_new(seq![Denom::Mel], denoms_of(datas(outputs@))), denoms_of(datas(extras@))),
{
    let ghost od = denoms_of(datas(outputs@));
    let ghost xd = denoms_of(datas(extras@));
    let mut r: Vec<Denom> = Vec::new();
    r.push(Denom::Mel);
    proof {
        assert(r@[0] == Denom::Mel);
    }
    let mut i: usize = 0;
    while i < outputs.len()
        invariant
            i <= outputs@.len(),
            r@.contains(Denom::Mel),
            forall|k: int, l: int| 0 <= k < l < r@.len() ==> r@[k] != r@[l],
            forall|k: int| 0 <= k < i ==> r@.contains(#[trigger] outputs@[k].denom),
            r@.len() <= 1 + i,
            od == denoms_of(datas(outputs@)),
            r@ == add_new(seq![Denom::Mel], od.subrange(0, i as int)),
        decreases outputs@.len() - i,
    {
        let d = outputs[i].denom;
        let ghost old_r = r@;
        proof {
            assert(od.subrange(0, i + 1).drop_last() =~= od.subrange(0, i as int));
            assert(od.subrange(0, i + 1).last() == d);
        }
        if !contains_denom(&r, d) {
            r.push(d);
            proof {
                assert(r@[r@.len() - 1] == d);
                assert forall|x: Denom| old_r.contains(x) implies r@.contains(x) by {
                    let j = choose|j: int| 0 <= j < old_r.len() && old_r[j] == x;
                    assert(r@[j] == x);
                }
            }
        }
        proof {
            assert(r@.contains(d));
        }
        i = i + 1;
    }
    proof {
        assert(od.subrange(0, od.len() as int) =~= od);
        assert(xd.subrange(0, 0) =~= Seq::<Denom>::empty());
    }
    let mut i: usize = 0;
    while i < extras.len()
        invariant
            i <= extras@.len(),
            r@.contains(Denom::Mel),
            forall|k: int, l: int| 0 <= k < l < r@.len() ==> r@[k] != r@[l],
            forall|k: int| 0 <= k < outputs@.len() ==> r@.contains(#[trigger] outputs@[k].denom),
            forall|k: int| 0 <= k < i ==> r@.contains(#[trigger] extras@[k].denom),
            r@.len() <= 1 + outputs@.len() + i,
            xd == denoms_of(datas(extras@)),
            r@ == add_new(add_new(seq![Denom::Mel], od), xd.subrange(0, i as int)),
        decreases extras@.len() - i,
    {
        let d = extras[i].denom;
        let ghost old_r = r@;
        proof {
            assert(xd.subrange(0, i + 1).drop_last() =~= xd.subrange(0, i as int));
            assert(xd.subrange(0, i + 1).last() == d);
        }
        if !contains_denom(&r, d) {
            r.push(d);
            proof {
                assert(r@[r@.len() - 1] == d);
                assert forall|x: Denom| old_r.contains(x) implies r@.contains(x) by {
                    let j = choose|j: int| 0 <= j < old_r.len() && old_r[j] == x;
                    assert(r@[j] == x);
                }
            }
        }
        proof {
            assert(r@.contains(d));
        }
        i = i + 1;
    }
    proof {
        assert(xd.subrange(0, xd.len() as int) =~= xd);
    }
    r
}

/// The coins at the positions `picked` of `avail` may be added to the
/// explicit inputs `skip`: each once, none of them explicit already.
pub open spec fn picks_ok(avail: Seq<(CoinID, CoinDataView)>, skip: Seq<CoinID>, picked: Seq<usize>) -> bool {
    &&& forall|k: int|
        0 <= k < picked.len() ==> #[trigger] picked[k] < avail.len() && !skip.contains(
            avail[picked[k] as int].0,
        )
    &&& forall|k: int, l: int| 0 <= k < l < picked.len() ==> picked[k] != picked[l]
}

/// A change output: back to `owner`, of a balanced denomination, non-empty.
pub open spec fn change_ok(o: CoinDataView, owner: Address, nob: Seq<Denom>) -> bool {
    &&& o.covhash == owner
    &&& o.value > 0
    &&& o.additional_data.len() == 0
    &&& !nob.contains(o.denom)
}

/// Inputs holding `ins` balance outputs `outs` with fee `fee`: exactly in
/// each denomination outside `nob`, at least in those of `nob`.
pub open spec fn balanced(ins: Seq<CoinDataView>, outs: Seq<CoinDataView>, nob: Seq<Denom>, fee: u128) -> bool {
    forall|e: Denom|
        #![trigger value_in(ins, e)]
        #![trigger value_in(outs, e)]
        if nob.contains(e) {
            value_in(ins, e) >= value_in(outs, e) + fee_part(e, fee)
        } else {
            value_in(ins, e) == value_in(outs, e) + fee_part(e, fee)
        }
}

/// `tx` is the unsigned transaction built from `args` at fee `fee`, with
/// the coins at positions `picked` of `avail` added to the explicit inputs,
/// whose contents are `extras`.
pub open spec fn assembled(
    args: PrepareTxArgs,
    extras: Seq<CoinDataView>,
    avail: Seq<(CoinID, CoinDataView)>,
    fee: u128,
    owner: Address,
    covs: Seq<Seq<u8>>,
    tx: crate::types::TransactionView,
    picked: Seq<usize>,
) -> bool {
    let n = args.outputs@.len();
    &&& tx.kind == args.kind
    &&& tx.data == args.data@
    &&& tx.covenants == covs
    &&& tx.fee == fee
    &&& tx.sigs.len() == 0
    &&& n <= tx.outputs.len()
    &&& tx.outputs.subrange(0, n as int) == datas(args.outputs@)
    &&& forall|k: int| n <= k < tx.outputs.len() ==> change_ok(#[trigger] tx.outputs[k], owner, args.nobalance@)
    &&& forall|k: int, l: int|
        n <= k < l < tx.outputs.len() ==> tx.outputs[k].denom != tx.outputs[l].denom
    &&& tx.inputs == args.inputs@ + picked_ids(avail, picked)
    &&& picks_ok(avail, args.inputs@, picked)
    &&& balanced(extras + picked_datas(avail, picked), tx.outputs, args.nobalance@, fee)
}

/// `need - have`, and `have - need`, each floored at zero; `None` when the
/// first exceeds the largest coin value.
fn gap(out: u128, fee: u128, have: u128) -> (r: Option<(u128, u128)>)
    ensures
        r is None <==> out + fee - have > u128::MAX,
        r is Some ==> {
            let (m, s) = r.unwrap();
            &&& m == if out + fee > have { out + fee - have } else { 0 }
            &&& s == if have > out + fee { have - out - fee } else { 0 }
        },
{
    if have >= out {
        let sp = have - out;
        if sp >= fee {
            Some((0, sp - fee))
        } else {
            Some((fee - sp, 0))
        }
    } else {
        let a = out - have;
        if a > u128::MAX - fee {
            None
        } else {
            Some((a + fee, 0))
        }
    }
}

pub proof fn lemma_spendable_nonneg(avail: Seq<(CoinID, CoinDataView)>, skip: Seq<CoinID>, d: Denom)
    ensures
        spendable_in(avail, skip, d) >= 0,
    decreases avail.len(),
{
    if avail.len() > 0 {
        lemma_spendable_nonneg(avail.drop_last(), skip, d);
    }
}

pub(crate) fn copy_outputs(v: &Vec<CoinData>) -> (r: Vec<CoinData>)
    ensures
        datas(r@) == datas(v@),
{
    let mut r: Vec<CoinData> = Vec::new();
    let mut i: usize = 0;
    while i < v.len()
        invariant
            i <= v@.len(),
            r@.len() == i,
            forall|k: int| 0 <= k < i ==> #[trigger] r@[k]@ == v@[k]@,
        decreases v@.len() - i,
    {
        r.push(v[i].duplicate());
        i = i + 1;
    }
    proof {
        assert(datas(r@) =~= datas(v@));
    }
    r
}

pub(crate) fn copy_ids(v: &Vec<CoinID>) -> (r: Vec<CoinID>)
    ensures
        r@ == v@,
{
    let mut r: Vec<CoinID> = Vec::new();
    let mut i: usize = 0;
    while i < v.len()
        invariant
            i <= v@.len(),
            r@ == v@.subrange(0, i as int),
        decreases v@.len() - i,
    {
        r.push(v[i]);
        i = i + 1;
        proof {
            assert(r@ =~= v@.subrange(0, i as int));
        }
    }
    proof {
        assert(v@.subrange(0, v@.len() as int) =~= v@);
    }
    r
}

pub open spec fn blobs(v: Seq<Vec<u8>>) -> Seq<Seq<u8>> {
    v.map_values(|c: Vec<u8>| c@)
}

pub(crate) fn copy_blobs(v: &Vec<Vec<u8>>) -> (r: Vec<Vec<u8>>)
    ensures
        blobs(r@) == blobs(v@),
{
    let mut r: Vec<Vec<u8>> = Vec::new();
    let mut i: usize = 0;
    while i < v.len()
        invariant
            i <= v@.len(),
            r@.len() == i,
            forall|k: int| 0 <= k < i ==> #[trigger] r@[k]@ == v@[k]@,
        decreases v@.len() - i,
    {
        r.push(v[i].clone());
        i = i + 1;
    }
    proof {
        assert(blobs(r@) =~= blobs(v@));
    }
    r
}

/// What holds once the denominations `done` are handled: the coins at
/// `picked` are added, the outputs are `os`, each handled denomination is
/// balanced and covered, and the others are as the request left them.
pub open spec fn step_inv(
    ex: Seq<CoinDataView>,
    req: Seq<CoinDataView>,
    avail: Seq<(CoinID, CoinDataView)>,
    skip: Seq<CoinID>,
    nob: Seq<Denom>,
    fee: u128,
    owner: Address,
    done: Seq<Denom>,
    picked: Seq<usize>,
    os: Seq<CoinDataView>,
) -> bool {
    let n = req.len();
    let ins = ex + picked_datas(avail, picked);
    &&& picks_ok(avail, skip, picked)
    &&& forall|k: int|
        0 <= k < picked.len() ==> done.contains(#[trigger] avail[picked[k] as int].1.denom)
    &&& n <= os.len()
    &&& os.subrange(0, n as int) == req
    &&& forall|k: int|
        n <= k < os.len() ==> change_ok(#[trigger] os[k], owner, nob) && done.contains(os[k].denom)
    &&& forall|k: int, l: int| n <= k < l < os.len() ==> os[k].denom != os[l].denom
    &&& forall|e: Denom|
        #![trigger done.contains(e)]
        done.contains(e) ==> {
            &&& nob.contains(e) ==> value_in(ins, e) >= value_in(os, e) + fee_part(e, fee)
            &&& !nob.contains(e) ==> value_in(ins, e) == value_in(os, e) + fee_part(e, fee)
            &&& shortfall(req, ex, avail, skip, nob, e, fee) <= 0
        }
    &&& forall|e: Denom|
        #![trigger value_in(os, e)]
        #![trigger value_in(ins, e)]
        !done.contains(e) ==> value_in(ins, e) == value_in(ex, e) && value_in(os, e) == value_in(
            req,
            e,
        )
}

proof fn lemma_push_contains(done: Seq<Denom>, d: Denom, e: Denom)
    ensures
        done.push(d).contains(e) <==> (done.contains(e) || e == d),
{
    if done.push(d).contains(e) {
        let k = choose|k: int| 0 <= k < done.push(d).len() && done.push(d)[k] == e;
        if k < done.len() {
            assert(done[k] == e);
        }
    }
    if done.contains(e) {
        let k = choose|k: int| 0 <= k < done.len() && done[k] == e;
        assert(done.push(d)[k] == e);
    }
    if e == d {
        assert(done.push(d)[done.len() as int] == e);
    }
}

/// Handling a denomination of `nob` that the explicit inputs cover.
proof fn lemma_step_unbalanced(
    ex: Seq<CoinDataView>,
    req: Seq<CoinDataView>,
    avail: Seq<(CoinID, CoinDataView)>,
    skip: Seq<CoinID>,
    nob: Seq<Denom>,
    fee: u128,
    owner: Address,
    done: Seq<Denom>,
    picked: Seq<usize>,
    os: Seq<CoinDataView>,
    d: Denom,
)
    requires
        step_inv(ex, req, avail, skip, nob, fee, owner, done, picked, os),
        !done.contains(d),
        nob.contains(d),
        need_of(req, d, fee) <= value_in(ex, d),
    ensures
        step_inv(ex, req, avail, skip, nob, fee, owner, done.push(d), picked, os),
{
    let ins = ex + picked_datas(avail, picked);
    assert forall|e: Denom| #[trigger] done.push(d).contains(e) <==> (done.contains(e) || e == d) by {
        lemma_push_contains(done, d, e);
    }
    assert(value_in(ins, d) == value_in(ex, d) && value_in(os, d) == value_in(req, d));
    assert forall|k: int| 0 <= k < picked.len() implies done.push(d).contains(
        #[trigger] avail[picked[k] as int].1.denom,
    ) by {
        assert(done.contains(avail[picked[k] as int].1.denom));
    }
    assert forall|k: int| req.len() <= k < os.len() implies change_ok(#[trigger] os[k], owner, nob)
        && done.push(d).contains(os[k].denom) by {
        assert(done.contains(os[k].denom));
    }
}

/// Handling a balanced denomination: the coins at `idx` are added and the
/// change `ch`, if any, is appended.
proof fn lemma_step_balanced(
    ex: Seq<CoinDataView>,
    req: Seq<CoinDataView>,
    avail: Seq<(CoinID, CoinDataView)>,
    skip: Seq<CoinID>,
    nob: Seq<Denom>,
    fee: u128,
    owner: Address,
    done: Seq<Denom>,
    picked: Seq<usize>,
    os: Seq<CoinDataView>,
    d: Denom,
    idx: Seq<usize>,
    change: u128,
    ch: Seq<CoinDataView>,
)
    requires
        step_inv(ex, req, avail, skip, nob, fee, owner, done, picked, os),
        !done.contains(d),
        !nob.contains(d),
        forall|k: int|
            0 <= k < idx.len() ==> {
                &&& #[trigger] idx[k] < avail.len()
                &&& avail[idx[k] as int].1.denom == d
                &&& !skip.contains(avail[idx[k] as int].0)
            },
        forall|k: int, l: int| 0 <= k < l < idx.len() ==> idx[k] < idx[l],
        value_in(ex, d) + value_total(picked_datas(avail, idx)) == need_of(req, d, fee) + change,
        shortfall(req, ex, avail, skip, nob, d, fee) <= 0,
        ch == (if change > 0 {
            seq![CoinDataView { covhash: owner, value: change, denom: d, additional_data: seq![] }]
        } else {
            Seq::<CoinDataView>::empty()
        }),
    ensures
        step_inv(ex, req, avail, skip, nob, fee, owner, done.push(d), picked + idx, os + ch),
{
    let ins0 = ex + picked_datas(avail, picked);
    let newp = picked_datas(avail, idx);
    let grown = picked + idx;
    let os1 = os + ch;
    let n = req.len();
    assert(picked_datas(avail, grown) =~= picked_datas(avail, picked) + newp);
    assert(ex + picked_datas(avail, grown) =~= ins0 + newp);
    assert forall|e: Denom| #[trigger] done.push(d).contains(e) <==> (done.contains(e) || e == d) by {
        lemma_push_contains(done, d, e);
    }
    assert forall|k: int| 0 <= k < newp.len() implies newp[k].denom == d by {
        assert(avail[idx[k] as int].1.denom == d);
    }
    assert forall|k: int| 0 <= k < ch.len() implies ch[k].denom == d by {}
    assert(value_total(Seq::<CoinDataView>::empty()) == 0);
    assert(value_total(ch) == change) by {
        if change > 0 {
            assert(ch.drop_last() =~= Seq::<CoinDataView>::empty());
        }
    }
    assert forall|e: Denom| true implies {
        &&& value_in(ins0 + newp, e) == value_in(ins0, e) + if e == d {
            value_total(newp)
        } else {
            0
        }
        &&& value_in(os1, e) == value_in(os, e) + if e == d {
            value_total(ch)
        } else {
            0
        }
    } by {
        lemma_value_in_append(ins0, newp, e);
        lemma_value_in_single_denom(newp, d, e);
        lemma_value_in_append(os, ch, e);
        lemma_value_in_single_denom(ch, d, e);
    }
    assert(value_in(ins0, d) == value_in(ex, d) && value_in(os, d) == value_in(req, d));
    assert(picks_ok(avail, skip, grown)) by {
        assert forall|k: int, l: int| 0 <= k < l < grown.len() implies grown[k] != grown[l] by {
            if l >= picked.len() && k < picked.len() {
                assert(done.contains(avail[grown[k] as int].1.denom));
                assert(avail[grown[l] as int].1.denom == d);
            }
            if k >= picked.len() {
                assert(idx[k - picked.len()] < idx[l - picked.len()]);
            }
        }
        assert forall|k: int| 0 <= k < grown.len() implies #[trigger] grown[k] < avail.len()
            && !skip.contains(avail[grown[k] as int].0) by {
            if k >= picked.len() {
                assert(grown[k] == idx[k - picked.len()]);
            }
        }
    }
    assert forall|k: int| 0 <= k < grown.len() implies done.push(d).contains(
        #[trigger] avail[grown[k] as int].1.denom,
    ) by {
        if k < picked.len() {
            assert(done.contains(avail[grown[k] as int].1.denom));
        } else {
            assert(grown[k] == idx[k - picked.len()]);
        }
    }
    assert(os1.subrange(0, n as int) =~= os.subrange(0, n as int));
    assert forall|k: int| n <= k < os1.len() implies change_ok(#[trigger] os1[k], owner, nob)
        && done.push(d).contains(os1[k].denom) by {
        if k < os.len() {
            assert(os1[k] == os[k]);
            assert(change_ok(os[k], owner, nob));
        }
    }
    assert forall|k: int, l: int| n <= k < l < os1.len() implies os1[k].denom != os1[l].denom by {
        if l >= os.len() {
            assert(change_ok(os[k], owner, nob));
            assert(done.contains(os[k].denom));
        }
    }
    assert forall|e: Denom| #![trigger value_in(os1, e)] #![trigger value_in(ins0 + newp, e)]
        !done.push(d).contains(e) implies value_in(ins0 + newp, e) == value_in(ex, e) && value_in(os1, e)
        == value_in(req, e) by {
        lemma_push_contains(done, d, e);
        lemma_value_in_append(ins0, newp, e);
        lemma_value_in_single_denom(newp, d, e);
        lemma_value_in_append(os, ch, e);
        lemma_value_in_single_denom(ch, d, e);
        assert(value_in(ins0, e) == value_in(ex, e));
        assert(value_in(os, e) == value_in(req, e));
    }
}

/// The most denominations a transaction for `args` balances: the native
/// one, and one for each requested output and each explicit input.
pub open spec fn denom_bound(args: PrepareTxArgs) -> int {
    1 + args.outputs@.len() as int + args.inputs@.len() as int
}

/// Builds the unsigned transaction for `args` at fee `fee`: the explicit
/// inputs, whose contents are `extras`, then coins of `avail` picked for each
/// denomination still short; the requested outputs, then one change output
/// to `owner` for each denomination with a remainder. Fails with the first
/// denomination that cannot be covered, and by how much.
pub fn assemble(
    args: &PrepareTxArgs,
    extras: &Vec<CoinData>,
    avail: &Vec<(CoinID, CoinData)>,
    fee: u128,
    owner: Address,
    covs: &Vec<Vec<u8>>,
) -> (r: Result<(Transaction, Vec<usize>), (u128, Denom)>)
    requires
        value_total(datas(args.outputs@)) <= u128::MAX,
        value_total(datas(extras@)) <= u128::MAX,
        extras@.len() == args.inputs@.len(),
    ensures
        r is Ok ==> r->Ok_0.0@.outputs.len() <= args.outputs@.len() + denom_bound(*args),
        r is Ok ==> r->Ok_0.0@.inputs.len() <= args.inputs@.len() + denom_bound(*args) * pairs_view(
            avail@,
        ).len(),
        r is Ok ==> assembled(
            *args,
            datas(extras@),
            pairs_view(avail@),
            fee,
            owner,
            blobs(covs@),
            r->Ok_0.0@,
            r->Ok_0.1@,
        ),
        r is Ok ==> forall|d: Denom|
            #[trigger] shortfall(
                datas(args.outputs@),
                datas(extras@),
                pairs_view(avail@),
                args.inputs@,
                args.nobalance@,
                d,
                fee,
            ) <= 0,
        r is Err ==> r->Err_0.0 > 0 && r->Err_0.0 == shortfall(
            datas(args.outputs@),
            datas(extras@),
            pairs_view(avail@),
            args.inputs@,
            args.nobalance@,
            r->Err_0.1,
            fee,
        ),
{
    let ghost req = datas(args.outputs@);
    let ghost ex = datas(extras@);
    let ghost nob = args.nobalance@;
    let ghost skip = args.inputs@;
    let dl = denoms_for(&args.outputs, extras);
    let mut outs = copy_outputs(&args.outputs);
    let mut inputs = copy_ids(&args.inputs);
    let mut picked: Vec<usize> = Vec::new();
    proof {
        assert(datas(outs@).subrange(0, req.len() as int) =~= req);
        assert(picked_ids(pairs_view(avail@), picked@) =~= Seq::<CoinID>::empty());
        assert(inputs@ =~= skip + picked_ids(pairs_view(avail@), picked@));
        assert(ex + picked_datas(pairs_view(avail@), picked@) =~= ex);
        assert(dl@.subrange(0, 0) =~= Seq::<Denom>::empty());
    }
    let mut j: usize = 0;
    while j < dl.len()
        invariant
            j <= dl@.len(),
            dl@.contains(Denom::Mel),
            forall|k: int, l: int| 0 <= k < l < dl@.len() ==> dl@[k] != dl@[l],
            forall|k: int| 0 <= k < args.outputs@.len() ==> dl@.contains(#[trigger] args.outputs@[k].denom),
            forall|k: int| 0 <= k < extras@.len() ==> dl@.contains(#[trigger] extras@[k].denom),
            req == datas(args.outputs@),
            ex == datas(extras@),
            nob == args.nobalance@,
            skip == args.inputs@,
            value_total(req) <= u128::MAX,
            value_total(ex) <= u128::MAX,
            inputs@ == skip + picked_ids(pairs_view(avail@), picked@),
            step_inv(ex, req, pairs_view(avail@), skip, nob, fee, owner, dl@.subrange(0, j as int), picked@, datas(outs@)),
            dl@.len() <= denom_bound(*args),
            extras@.len() == args.inputs@.len(),
            outs@.len() <= args.outputs@.len() + j,
            picked@.len() <= j * pairs_view(avail@).len(),
        decreases dl@.len() - j,
    {
        let d = dl[j];
        let ghost done0 = dl@.subrange(0, j as int);
        let ghost picked0 = picked@;
        let ghost os0 = datas(outs@);
        proof {
            assert(dl@.subrange(0, j + 1) =~= done0.push(d));
            assert(!done0.contains(d)) by {
                if done0.contains(d) {
                    let k = choose|k: int| 0 <= k < done0.len() && done0[k] == d;
                    assert(dl@[k] == dl@[j as int]);
                }
            }
            assert(value_in(ex + picked_datas(pairs_view(avail@), picked0), d) == value_in(ex, d));
        }
        let out_d = sum_denom(&args.outputs, d);
        let ext_d = sum_denom(extras, d);
        let fee_d: u128 = if d == Denom::Mel {
            fee
        } else {
            0
        };
        let g = gap(out_d, fee_d, ext_d);
        if contains_denom(&args.nobalance, d) {
            match g {
                None => {
                    return Err((u128::MAX, d));
                },
                Some((m, _)) => {
                    if m > 0 {
                        return Err((m, d));
                    }
                },
            }
            proof {
                let na = pairs_view(avail@).len();
                assert(j * na <= (j + 1) * na) by (nonlinear_arith)
                    requires
                        na >= 0,
                ;
                lemma_step_unbalanced(ex, req, pairs_view(avail@), skip, nob, fee, owner, done0, picked0, os0, d);
            }
        } else {
            match g {
                None => {
                    return Err((u128::MAX, d));
                },
                Some((m, sp)) => {
                    let (mut idx, miss, sur, mut ids) = pick_denom(avail, &args.inputs, d, m);
                    if miss > 0 {
                        return Err((miss, d));
                    }
                    let ghost idx0 = idx@;
                    let change: u128 = sp + sur;
                    let ghost ch = if change > 0 {
                        seq![CoinDataView { covhash: owner, value: change, denom: d, additional_data: seq![] }]
                    } else {
                        Seq::<CoinDataView>::empty()
                    };
                    if change > 0 {
                        outs.push(
                            CoinData {
                                covhash: owner,
                                value: change,
                                denom: d,
                                additional_data: Vec::new(),
                            },
                        );
                    }
                    picked.append(&mut idx);
                    inputs.append(&mut ids);
                    proof {
                        let na = pairs_view(avail@).len();
                        assert(j * na + na == (j + 1) * na) by (nonlinear_arith);
                        assert(picked@.len() == picked0.len() + idx0.len());
                        assert(datas(outs@) =~= os0 + ch);
                        assert(picked@ =~= picked0 + idx0);
                        assert(picked_ids(pairs_view(avail@), picked@) =~= picked_ids(pairs_view(avail@), picked0) + picked_ids(pairs_view(avail@), idx0));
                        assert(inputs@ =~= skip + picked_ids(pairs_view(avail@), picked@));
                        lemma_spendable_nonneg(pairs_view(avail@), skip, d);
                        lemma_step_balanced(ex, req, pairs_view(avail@), skip, nob, fee, owner, done0, picked0, os0, d, idx0, change, ch);
                    }
                },
            }
        }
        j = j + 1;
    }
    proof {
        assert(dl@.subrange(0, dl@.len() as int) =~= dl@);
        assert forall|e: Denom| !dl@.contains(e) implies value_in(ex, e) == 0 && value_in(req, e) == 0
            && fee_part(e, fee) == 0 by {
            assert forall|k: int| 0 <= k < ex.len() implies ex[k].denom != e by {
                assert(dl@.contains(extras@[k].denom));
            }
            assert forall|k: int| 0 <= k < req.len() implies req[k].denom != e by {
                assert(dl@.contains(args.outputs@[k].denom));
            }
            lemma_value_in_absent(ex, e);
            lemma_value_in_absent(req, e);
        }
        assert forall|e: Denom| #[trigger] shortfall(req, ex, pairs_view(avail@), skip, nob, e, fee) <= 0 by {
            if !dl@.contains(e) {
                lemma_spendable_nonneg(pairs_view(avail@), skip, e);
                assert(!dl@.contains(e) ==> value_in(ex, e) == 0 && value_in(req, e) == 0 && fee_part(e, fee) == 0);
            } else {
                assert(dl@.subrange(0, j as int).contains(e));
            }
        }
    }
    proof {
        let na = pairs_view(avail@).len();
        assert(picked@.len() <= denom_bound(*args) * na) by (nonlinear_arith)
            requires
                picked@.len() <= j * na,
                j <= denom_bound(*args),
                na >= 0,
        ;
        assert(inputs@.len() == skip.len() + picked@.len());
    }
    let tx = Transaction {
        kind: args.kind,
        inputs,
        outputs: outs,
        fee,
        covenants: copy_blobs(covs),
        data: args.data.clone(),
        sigs: Vec::new(),
    };
    proof {
        let ins = ex + picked_datas(pairs_view(avail@), picked@);
        assert(tx@.outputs == datas(outs@));
        assert(tx@.sigs =~= Seq::<Seq<u8>>::empty());
        assert forall|e: Denom| #![trigger value_in(ins, e)] #![trigger value_in(tx@.outputs, e)] true implies
            if nob.contains(e) {
                value_in(ins, e) >= value_in(tx@.outputs, e) + fee_part(e, fee)
            } else {
                value_in(ins, e) == value_in(tx@.outputs, e) + fee_part(e, fee)
            } by {
            if !dl@.contains(e) {
                assert(!dl@.contains(e) ==> value_in(ex, e) == 0 && value_in(req, e) == 0 && fee_part(e, fee) == 0);
                assert(value_in(ins, e) == value_in(ex, e));
            } else {
                assert(dl@.subrange(0, j as int).contains(e));
            }
        }
        assert forall|k: int| req.len() <= k < tx@.outputs.len() implies change_ok(#[trigger] tx@.outputs[k], owner, nob) by {
            assert(change_ok(datas(outs@)[k], owner, nob));
        }
    }
    Ok((tx, picked))
}

/// Total value of the explicit inputs that resolved.
pub open spec fn resolved_total(resolved: Seq<Option<CoinData>>) -> int
    decreases resolved.len(),
{
    if resolved.len() == 0 {
        0
    } else {
        resolved_total(resolved.drop_last()) + match resolved.last() {
            Some(c) => c.value as int,
            None => 0,
        }
    }
}

/// Contents of resolved explicit inputs.
pub open spec fn resolved_datas(resolved: Seq<Option<CoinData>>) -> Seq<CoinDataView> {
    resolved.map_values(|o: Option<CoinData>| o.unwrap()@)
}

/// The covenants of a prepared transaction: the requested ones, then the
/// signer's.
pub open spec fn all_covenants(args: PrepareTxArgs, signer: Signer) -> Seq<Seq<u8>> {
    tx_covenants(args, signer.covenant@)
}

/// The requested covenants, then `cov`.
pub open spec fn tx_covenants(args: PrepareTxArgs, cov: Seq<u8>) -> Seq<Seq<u8>> {
    blobs(args.covenants@).push(cov)
}

/// Explicit input `i` cannot be spent: the chain does not know it, or no
/// covenant of the transaction unlocks it.
pub open spec fn bad_input(resolved: Seq<Option<CoinData>>, covs: Seq<Seq<u8>>, i: int) -> bool {
    resolved[i] is None || !covs.map_values(|c: Seq<u8>| covenant_address(c)).contains(
        resolved[i]->Some_0.covhash,
    )
}

/// Sums of values fit the value type: those of the requested outputs and
/// those of the resolved explicit inputs.
pub open spec fn within_limits(args: PrepareTxArgs, resolved: Seq<Option<CoinData>>) -> bool {
    value_total(datas(args.outputs@)) <= u128::MAX && resolved_total(resolved) <= u128::MAX
}

/// Whether the sums of values that `prepare` adds up fit the value type.
pub fn within_value_limits(args: &PrepareTxArgs, resolved: &Vec<Option<CoinData>>) -> (r: bool)
    ensures
        r == within_limits(*args, resolved@),
{
    let mut t: u128 = 0;
    let mut i: usize = 0;
    let ghost req = datas(args.outputs@);
    while i < args.outputs.len()
        invariant
            i <= args.outputs@.len(),
            req == datas(args.outputs@),
            t == value_total(req.subrange(0, i as int)),
        decreases args.outputs@.len() - i,
    {
        proof {
            assert(req.subrange(0, i + 1).drop_last() =~= req.subrange(0, i as int));
        }
        if t > u128::MAX - args.outputs[i].value {
            proof {
                lemma_value_total_prefix(req, i + 1);
                assert(value_total(req) > u128::MAX);
            }
            return false;
        }
        t = t + args.outputs[i].value;
        i = i + 1;
    }
    proof {
        assert(req.subrange(0, req.len() as int) =~= req);
    }
    let mut t: u128 = 0;
    let mut i: usize = 0;
    while i < resolved.len()
        invariant
            i <= resolved@.len(),
            t == resolved_total(resolved@.subrange(0, i as int)),
            value_total(req) <= u128::MAX,
        decreases resolved@.len() - i,
    {
        proof {
            assert(resolved@.subrange(0, i + 1).drop_last() =~= resolved@.subrange(0, i as int));
        }
        match &resolved[i] {
            Some(c) => {
                if t > u128::MAX - c.value {
                    proof {
                        lemma_resolved_total_prefix(resolved@, i + 1);
                    }
                    return false;
                }
                t = t + c.value;
            },
            None => {},
        }
        i = i + 1;
    }
    proof {
        assert(resolved@.subrange(0, resolved@.len() as int) =~= resolved@);
    }
    true
}

pub proof fn lemma_resolved_total_prefix(s: Seq<Option<CoinData>>, i: int)
    requires
        0 <= i <= s.len(),
    ensures
        resolved_total(s.subrange(0, i)) <= resolved_total(s),
    decreases s.len(),
{
    if i < s.len() {
        assert(s.drop_last().subrange(0, i) =~= s.subrange(0, i));
        lemma_resolved_total_prefix(s.drop_last(), i);
    } else {
        assert(s.subrange(0, i) =~= s);
    }
}

/// Resolved inputs all found: their total value is the total of their contents.
proof fn lemma_resolved_all_some(s: Seq<Option<CoinData>>)
    requires
        forall|k: int| 0 <= k < s.len() ==> s[k] is Some,
    ensures
        value_total(resolved_datas(s)) == resolved_total(s),
    decreases s.len(),
{
    if s.len() > 0 {
        assert(resolved_datas(s).drop_last() =~= resolved_datas(s.drop_last()));
        lemma_resolved_all_some(s.drop_last());
    }
}

/// A denomination covered at some fee is covered with no fee at all.
proof fn lemma_shortfall_fee_monotone(
    req: Seq<CoinDataView>,
    ex: Seq<CoinDataView>,
    avail: Seq<(CoinID, CoinDataView)>,
    skip: Seq<CoinID>,
    nob: Seq<Denom>,
    d: Denom,
    fee: u128,
)
    ensures
        shortfall(req, ex, avail, skip, nob, d, 0) <= shortfall(req, ex, avail, skip, nob, d, fee),
        d != Denom::Mel ==> shortfall(req, ex, avail, skip, nob, d, 0) == shortfall(req, ex, avail, skip, nob, d, fee),
{
    lemma_spendable_nonneg(avail, skip, d);
}

fn contains_addr(v: &Vec<Address>, a: Address) -> (r: bool)
    ensures
        r == v@.contains(a),
{
    let mut i: usize = 0;
    while i < v.len()
        invariant
            i <= v@.len(),
            forall|k: int| 0 <= k < i ==> v@[k] != a,
        decreases v@.len() - i,
    {
        if v[i] == a {
            return true;
        }
        i = i + 1;
    }
    false
}

/// Every explicit input can be spent.
pub open spec fn inputs_ok(resolved: Seq<Option<CoinData>>, covs: Seq<Seq<u8>>) -> bool {
    forall|i: int| 0 <= i < resolved.len() ==> !bad_input(resolved, covs, i)
}

/// The first explicit input that cannot be spent is the one reported.
pub open spec fn first_bad_reported(
    r: Result<Transaction, NeedWallet<PrepareTxError>>,
    args: PrepareTxArgs,
    resolved: Seq<Option<CoinData>>,
    covs: Seq<Seq<u8>>,
) -> bool {
    forall|i: int|
        0 <= i < resolved.len() && #[trigger] bad_input(resolved, covs, i) && (forall|j: int|
            0 <= j < i ==> !bad_input(resolved, covs, j)) ==> r == Err::<
            Transaction,
            NeedWallet<PrepareTxError>,
        >(NeedWallet::Other(PrepareTxError::BadExternalInput(args.inputs@[i])))
}

/// With no fee, every denomination is covered.
pub open spec fn covered(args: PrepareTxArgs, ex: Seq<CoinDataView>, avail: Seq<(CoinID, CoinDataView)>) -> bool {
    forall|d: Denom|
        #[trigger] shortfall(datas(args.outputs@), ex, avail, args.inputs@, args.nobalance@, d, 0) <= 0
}

/// `tx` is a transaction prepared for `args`: built from the explicit inputs
/// (contents `ex`) and coins of `avail`, paying at least `fee_multiplier`
/// times its weight, with each input signed by `signer`.
pub open spec fn prepared(
    tx: crate::types::TransactionView,
    args: PrepareTxArgs,
    ex: Seq<CoinDataView>,
    avail: Seq<(CoinID, CoinDataView)>,
    fee_multiplier: u128,
    signer: Signer,
    owner: Address,
) -> bool {
    &&& exists|picked: Seq<usize>|
        assembled(
            args,
            ex,
            avail,
            tx.fee,
            owner,
            all_covenants(args, signer),
            with_sigs(tx, seq![]),
            picked,
        )
    &&& tx.fee >= fee_multiplier * tx_weight(with_sigs(tx, seq![]), args.fee_ballast)
    &&& tx.fee <= fee_bound(args, all_covenants(args, signer), avail.len() as int, fee_multiplier)
    &&& fee_multiplier == 0 ==> tx.fee == 0
    &&& fee_reached(args, ex, avail, owner, all_covenants(args, signer), fee_multiplier, tx.fee)
    &&& tx.sigs.len() == tx.inputs.len()
    &&& forall|k: int|
        0 <= k < tx.sigs.len() ==> #[trigger] tx.sigs[k] == ed25519_signature_of(
            signer.key->Some_0@,
            sign_message(tx),
        )
    &&& covered(args, ex, avail)
}

/// Most bytes a transaction prepared for `args` with covenants `covs` can be
/// charged for, when `n_avail` wallet coins are available: the requested
/// outputs, the covenants and the data; at most one change output of at
/// most 89 bytes per denomination; and 105 bytes per input (its identity
/// and its signature), with at most the explicit inputs and, for each
/// denomination, every wallet coin.
pub open spec fn weight_bound(args: PrepareTxArgs, covs: Seq<Seq<u8>>, n_avail: int) -> int {
    let nd = denom_bound(args);
    57 + enc_outputs_body(datas(args.outputs@)).len() + enc_blobs_body(covs).len() + args.data@.len() + 89
        * nd + 105 * (args.inputs@.len() + nd * n_avail) + args.fee_ballast
}

/// The highest fee `prepare` can settle on.
pub open spec fn fee_bound(args: PrepareTxArgs, covs: Seq<Seq<u8>>, n_avail: int, fee_multiplier: u128) -> int {
    fee_multiplier * weight_bound(args, covs, n_avail)
}

/// At fee `fee`, every denomination is covered.
pub open spec fn covered_at(
    args: PrepareTxArgs,
    ex: Seq<CoinDataView>,
    avail: Seq<(CoinID, CoinDataView)>,
    fee: u128,
) -> bool {
    forall|d: Denom|
        #[trigger] shortfall(datas(args.outputs@), ex, avail, args.inputs@, args.nobalance@, d, fee) <= 0
}

/// A transaction assembled for `args` weighs at most `weight_bound`.
proof fn lemma_weight_within(
    args: PrepareTxArgs,
    ex: Seq<CoinDataView>,
    avail: Seq<(CoinID, CoinDataView)>,
    fee: u128,
    owner: Address,
    covs: Seq<Seq<u8>>,
    tx: crate::types::TransactionView,
    picked: Seq<usize>,
)
    requires
        assembled(args, ex, avail, fee, owner, covs, tx, picked),
        tx.outputs.len() <= args.outputs@.len() + denom_bound(args),
        tx.inputs.len() <= args.inputs@.len() + denom_bound(args) * avail.len(),
    ensures
        tx_weight(tx, args.fee_ballast) <= weight_bound(args, covs, avail.len() as int),
{
    let n = args.outputs@.len() as int;
    let req = datas(args.outputs@);
    let ch = tx.outputs.subrange(n, tx.outputs.len() as int);
    lemma_tx_len(tx);
    assert(tx.outputs =~= req + ch);
    lemma_outputs_body_append(req, ch);
    assert forall|k: int| 0 <= k < ch.len() implies (#[trigger] ch[k]).additional_data.len() == 0 by {
        assert(ch[k] == tx.outputs[n + k]);
        assert(change_ok(tx.outputs[n + k], owner, args.nobalance@));
    }
    lemma_outputs_body_bound(ch);
}

/// A higher fee never makes a shortfall smaller.
proof fn lemma_shortfall_fee_le(
    req: Seq<CoinDataView>,
    ex: Seq<CoinDataView>,
    avail: Seq<(CoinID, CoinDataView)>,
    skip: Seq<CoinID>,
    nob: Seq<Denom>,
    d: Denom,
    f1: u128,
    f2: u128,
)
    requires
        f1 <= f2,
    ensures
        shortfall(req, ex, avail, skip, nob, d, f1) <= shortfall(req, ex, avail, skip, nob, d, f2),
{
    lemma_spendable_nonneg(avail, skip, d);
}

/// `fee` is a fee the fee loop of `prepare` reaches: it starts at zero, and
/// each next fee is the estimate (the multiplier times the weight) of the
/// transaction assembled at the fee before, when that estimate is higher.
pub open spec fn fee_reached(
    args: PrepareTxArgs,
    ex: Seq<CoinDataView>,
    avail: Seq<(CoinID, CoinDataView)>,
    owner: Address,
    covs: Seq<Seq<u8>>,
    fee_multiplier: u128,
    fee: u128,
) -> bool {
    fee == 0 || exists|c: crate::types::TransactionView, p: Seq<usize>, f0: u128|
        f0 < fee && #[trigger] assembled(args, ex, avail, f0, owner, covs, c, p) && fee
            == fee_multiplier * tx_weight(c, args.fee_ballast)
}

/// The estimate of some transaction the loop can assemble exceeds the
/// largest value: no fee can be paid.
pub open spec fn estimate_overflows(
    args: PrepareTxArgs,
    ex: Seq<CoinDataView>,
    avail: Seq<(CoinID, CoinDataView)>,
    owner: Address,
    covs: Seq<Seq<u8>>,
    fee_multiplier: u128,
) -> bool {
    exists|c: crate::types::TransactionView, p: Seq<usize>, f0: u128|
        #[trigger] assembled(args, ex, avail, f0, owner, covs, c, p) && fee_multiplier * tx_weight(
            c,
            args.fee_ballast,
        ) > u128::MAX
}

/// A reported shortfall of `s` in `d`: the shortfall at a fee the loop
/// reached, or, for the native denomination, the largest value when a fee
/// estimate overflows.
pub open spec fn shortfall_reported(
    args: PrepareTxArgs,
    ex: Seq<CoinDataView>,
    avail: Seq<(CoinID, CoinDataView)>,
    owner: Address,
    covs: Seq<Seq<u8>>,
    fee_multiplier: u128,
    s: u128,
    d: Denom,
) -> bool {
    ||| exists|f: u128|
        #[trigger] fee_reached(args, ex, avail, owner, covs, fee_multiplier, f) && s as int == shortfall(
            datas(args.outputs@),
            ex,
            avail,
            args.inputs@,
            args.nobalance@,
            d,
            f,
        )
    ||| d == Denom::Mel && s == u128::MAX && estimate_overflows(args, ex, avail, owner, covs, fee_multiplier)
}

/// At every fee the loop can reach every denomination is covered, and no
/// estimate overflows: preparing succeeds.
pub open spec fn funds_cover_fees(
    args: PrepareTxArgs,
    ex: Seq<CoinDataView>,
    avail: Seq<(CoinID, CoinDataView)>,
    owner: Address,
    covs: Seq<Seq<u8>>,
    fee_multiplier: u128,
) -> bool {
    &&& forall|f: u128|
        #[trigger] fee_reached(args, ex, avail, owner, covs, fee_multiplier, f) ==> covered_at(
            args,
            ex,
            avail,
            f,
        )
    &&& !estimate_overflows(args, ex, avail, owner, covs, fee_multiplier)
}

/// Prepares a transaction for `args`, ready to inspect and send; nothing is
/// changed. `resolved` holds what the chain knows of each explicit input,
/// `avail` the wallet's spendable coins, and `owner` the address change
/// returns to. The fee is `fee_multiplier` times the transaction's weight,
/// found by rebuilding the transaction until its fee covers its own weight.
/// Every input is then signed, in order.
pub fn prepare(
    args: &PrepareTxArgs,
    resolved: &Vec<Option<CoinData>>,
    avail: &Vec<(CoinID, CoinData)>,
    fee_multiplier: u128,
    signer: &Signer,
    owner: Address,
) -> (r: Result<Transaction, NeedWallet<PrepareTxError>>)
    requires
        resolved@.len() == args.inputs@.len(),
        within_limits(*args, resolved@),
    ensures
        first_bad_reported(r, *args, resolved@, all_covenants(*args, *signer)),
        inputs_ok(resolved@, all_covenants(*args, *signer)) ==> (r matches Ok(tx) ==> prepared(
            tx@,
            *args,
            resolved_datas(resolved@),
            pairs_view(avail@),
            fee_multiplier,
            *signer,
            owner,
        )),
        inputs_ok(resolved@, all_covenants(*args, *signer)) ==> (r matches Err(NeedWallet::Wallet(e))
            ==> e == WalletAccessError::Locked && signer.key is None),
        inputs_ok(resolved@, all_covenants(*args, *signer)) ==> (r matches Err(NeedWallet::Other(e))
            ==> e is InsufficientFunds),
        inputs_ok(resolved@, all_covenants(*args, *signer)) ==> (r matches Err(
            NeedWallet::Other(PrepareTxError::InsufficientFunds(s, d)),
        ) ==> s > 0 && ((d != Denom::Mel || fee_multiplier == 0) ==> s == shortfall(
            datas(args.outputs@),
            resolved_datas(resolved@),
            pairs_view(avail@),
            args.inputs@,
            args.nobalance@,
            d,
            0,
        ))),
        (inputs_ok(resolved@, all_covenants(*args, *signer)) && fee_multiplier == 0
            && signer.key is Some && covered(*args, resolved_datas(resolved@), pairs_view(avail@))) ==> r is Ok,
        ({
            let f = fee_bound(*args, all_covenants(*args, *signer), avail@.len() as int, fee_multiplier);
            (inputs_ok(resolved@, all_covenants(*args, *signer)) && signer.key is Some && f <= u128::MAX
                && covered_at(*args, resolved_datas(resolved@), pairs_view(avail@), f as u128)) ==> r is Ok
        }),
        inputs_ok(resolved@, all_covenants(*args, *signer)) ==> (r matches Err(
            NeedWallet::Other(PrepareTxError::InsufficientFunds(s, d)),
        ) ==> shortfall_reported(
            *args,
            resolved_datas(resolved@),
            pairs_view(avail@),
            owner,
            all_covenants(*args, *signer),
            fee_multiplier,
            s,
            d,
        )),
        (inputs_ok(resolved@, all_covenants(*args, *signer)) && signer.key is Some && funds_cover_fees(
            *args,
            resolved_datas(resolved@),
            pairs_view(avail@),
            owner,
            all_covenants(*args, *signer),
            fee_multiplier,
        )) ==> r is Ok,
{
    let ghost covs = all_covenants(*args, *signer);
    // the transaction's covenants and the addresses they unlock
    let mut tx_covs = copy_blobs(&args.covenants);
    tx_covs.push(signer.covenant());
    proof {
        assert(blobs(tx_covs@) =~= covs);
    }
    let mut addrs: Vec<Address> = Vec::new();
    let mut i: usize = 0;
    while i < tx_covs.len()
        invariant
            i <= tx_covs@.len(),
            blobs(tx_covs@) == covs,
            addrs@ == covs.subrange(0, i as int).map_values(|c: Seq<u8>| covenant_address(c)),
        decreases tx_covs@.len() - i,
    {
        addrs.push(address_of(&tx_covs[i]));
        i = i + 1;
        proof {
            assert(addrs@ =~= covs.subrange(0, i as int).map_values(|c: Seq<u8>| covenant_address(c)));
        }
    }
    proof {
        assert(covs.subrange(0, covs.len() as int) =~= covs);
    }
    // explicit inputs must be known and unlockable
    let mut extras: Vec<CoinData> = Vec::new();
    let mut i: usize = 0;
    while i < args.inputs.len()
        invariant
            i <= args.inputs@.len(),
            resolved@.len() == args.inputs@.len(),
            addrs@ == covs.map_values(|c: Seq<u8>| covenant_address(c)),
            forall|j: int| 0 <= j < i ==> !bad_input(resolved@, covs, j),
            extras@.len() == i,
            forall|k: int| 0 <= k < i ==> #[trigger] extras@[k]@ == resolved@[k]->Some_0@,
            covs == all_covenants(*args, *signer),
        decreases args.inputs@.len() - i,
    {
        match &resolved[i] {
            None => {
                proof {
                    assert(bad_input(resolved@, covs, i as int));
                    lemma_first_bad(resolved@, covs, i as int);
                }
                return Err(NeedWallet::Other(PrepareTxError::BadExternalInput(args.inputs[i])));
            },
            Some(c) => {
                if !contains_addr(&addrs, c.covhash) {
                    proof {
                        assert(bad_input(resolved@, covs, i as int));
                        lemma_first_bad(resolved@, covs, i as int);
                    }
                    return Err(NeedWallet::Other(PrepareTxError::BadExternalInput(args.inputs[i])));
                }
                extras.push(c.duplicate());
            },
        }
        i = i + 1;
    }
    let ghost ex = datas(extras@);
    let ghost req = datas(args.outputs@);
    let ghost skip = args.inputs@;
    let ghost nob = args.nobalance@;
    proof {
        assert forall|k: int| 0 <= k < resolved@.len() implies resolved@[k] is Some by {
            assert(!bad_input(resolved@, covs, k));
        }
        assert(datas(extras@) =~= resolved_datas(resolved@));
        lemma_resolved_all_some(resolved@);
        assert(inputs_ok(resolved@, covs));
    }
    // rebuild until the fee covers the transaction's weight
    let ghost bound: int = value_in(ex, Denom::Mel) + wallet_part(pairs_view(avail@), skip, nob, Denom::Mel);
    let ghost f = fee_bound(*args, covs, avail@.len() as int, fee_multiplier);
    proof {
        assert(weight_bound(*args, covs, avail@.len() as int) >= 0);
        assert(f >= 0) by (nonlinear_arith)
            requires
                f == fee_multiplier * weight_bound(*args, covs, avail@.len() as int),
                weight_bound(*args, covs, avail@.len() as int) >= 0,
                fee_multiplier >= 0,
        ;
    }
    let mut fee: u128 = 0;
    let built: (Transaction, Vec<usize>);
    loop
        invariant
            ex == datas(extras@),
            ex == resolved_datas(resolved@),
            req == datas(args.outputs@),
            skip == args.inputs@,
            nob == args.nobalance@,
            blobs(tx_covs@) == covs,
            value_total(req) <= u128::MAX,
            value_total(ex) <= u128::MAX,
            bound == value_in(ex, Denom::Mel) + wallet_part(pairs_view(avail@), skip, nob, Denom::Mel),
            fee_multiplier == 0 ==> fee == 0,
            extras@.len() == args.inputs@.len(),
            inputs_ok(resolved@, covs),
            covs == all_covenants(*args, *signer),
            f == fee_bound(*args, covs, avail@.len() as int, fee_multiplier),
            fee <= f,
            fee_reached(*args, ex, pairs_view(avail@), owner, covs, fee_multiplier, fee),
        ensures
            fee <= f,
            fee_reached(*args, ex, pairs_view(avail@), owner, covs, fee_multiplier, fee),
            assembled(*args, ex, pairs_view(avail@), fee, owner, covs, built.0@, built.1@),
            forall|d: Denom| #[trigger] shortfall(req, ex, pairs_view(avail@), skip, nob, d, fee) <= 0,
            built.0.fee >= fee_multiplier * tx_weight(built.0@, args.fee_ballast),
        decreases (if fee <= bound { bound - fee + 1 } else { 0 }),
    {
        match assemble(args, &extras, avail, fee, owner, &tx_covs) {
            Err((s, d)) => {
                proof {
                    assert(fee_reached(*args, ex, pairs_view(avail@), owner, covs, fee_multiplier, fee));
                    if funds_cover_fees(*args, ex, pairs_view(avail@), owner, covs, fee_multiplier) {
                        assert(covered_at(*args, ex, pairs_view(avail@), fee));
                    }
                    lemma_shortfall_fee_monotone(req, ex, pairs_view(avail@), skip, nob, d, fee);
                    if f <= u128::MAX {
                        lemma_shortfall_fee_le(req, ex, pairs_view(avail@), skip, nob, d, fee, f as u128);
                    }
                }
                return Err(NeedWallet::Other(PrepareTxError::InsufficientFunds(s, d)));
            },
            Ok((tx, picked)) => {
                let w = tx.weight(args.fee_ballast);
                proof {
                    lemma_weight_within(*args, ex, pairs_view(avail@), fee, owner, covs, tx@, picked@);
                    assert(fee_multiplier * w <= f) by (nonlinear_arith)
                        requires
                            w <= weight_bound(*args, covs, avail@.len() as int),
                            f == fee_multiplier * weight_bound(*args, covs, avail@.len() as int),
                            fee_multiplier >= 0,
                    ;
                    assert(shortfall(req, ex, pairs_view(avail@), skip, nob, Denom::Mel, fee) <= 0);
                    lemma_value_in_le_total(req, Denom::Mel);
                    lemma_value_in_le_total(ex, Denom::Mel);
                }
                proof {
                    assert(assembled(*args, ex, pairs_view(avail@), fee, owner, covs, tx@, picked@));
                }
                match fee_multiplier.checked_mul(w) {
                    None => {
                        proof {
                            assert(estimate_overflows(*args, ex, pairs_view(avail@), owner, covs, fee_multiplier));
                        }
                        return Err(NeedWallet::Other(PrepareTxError::InsufficientFunds(u128::MAX, Denom::Mel)));
                    },
                    Some(nf) => {
                        if nf <= fee {
                            built = (tx, picked);
                            break;
                        }
                        fee = nf;
                    },
                }
            },
        }
    }
    let (tx0, picked) = built;
    let ghost unsigned = tx0@;
    let mut tx = tx0;
    let mut i: usize = 0;
    proof {
        assert(Seq::new(0 as nat, |k: int| ed25519_signature_of(signer.key->Some_0@, sign_message(unsigned)))
            =~= unsigned.sigs);
    }
    while i < tx.inputs.len()
        invariant
            i <= tx@.inputs.len(),
            tx@.inputs.len() == unsigned.inputs.len(),
            signer.key is Some ==> tx@ == with_sigs(
                unsigned,
                Seq::new(i as nat, |k: int| ed25519_signature_of(signer.key->Some_0@, sign_message(unsigned))),
            ),
            signer.key is None ==> i == 0 && tx@ == unsigned,
            unsigned.sigs.len() == 0,
            inputs_ok(resolved@, covs),
            covs == all_covenants(*args, *signer),
        decreases tx@.inputs.len() - i,
    {
        proof {
            if signer.key is None {
                assert(tx@.sigs.len() == 0);
            }
            lemma_sigs_not_hashed(unsigned, tx@.sigs, args.fee_ballast);
            assert(tx@.sigs.len() == i);
        }
        match signer.sign_tx(tx, i) {
            Err(e) => {
                return Err(NeedWallet::Wallet(e));
            },
            Ok(t) => {
                tx = t;
            },
        }
        i = i + 1;
        proof {
            assert(tx@.sigs =~= Seq::new(i as nat, |k: int| ed25519_signature_of(signer.key->Some_0@, sign_message(unsigned))));
        }
    }
    proof {
        assert(unsigned.sigs =~= seq![]);
        assert(with_sigs(tx@, seq![]) == with_sigs(unsigned, seq![]));
        assert(with_sigs(unsigned, seq![]) == unsigned);
        lemma_sigs_not_hashed(unsigned, tx@.sigs, args.fee_ballast);
        assert forall|d: Denom| #[trigger] shortfall(req, ex, pairs_view(avail@), skip, nob, d, 0) <= 0 by {
            lemma_shortfall_fee_monotone(req, ex, pairs_view(avail@), skip, nob, d, fee);
        }
    }
    Ok(tx)
}

/// Only one explicit input is the first that cannot be spent.
proof fn lemma_first_bad(resolved: Seq<Option<CoinData>>, covs: Seq<Seq<u8>>, i: int)
    requires
        0 <= i < resolved.len(),
        bad_input(resolved, covs, i),
        forall|j: int| 0 <= j < i ==> !bad_input(resolved, covs, j),
    ensures
        forall|i2: int|
            0 <= i2 < resolved.len() && bad_input(resolved, covs, i2) && (forall|j: int|
                0 <= j < i2 ==> !bad_input(resolved, covs, j)) ==> i2 == i,
{
    assert forall|i2: int|
        0 <= i2 < resolved.len() && bad_input(resolved, covs, i2) && (forall|j: int|
            0 <= j < i2 ==> !bad_input(resolved, covs, j)) implies i2 == i by {
        if i2 > i {
            assert(!bad_input(resolved, covs, i));
        }
        if i2 < i {
            assert(!bad_input(resolved, covs, i2));
        }
    }
}

} // verus!
