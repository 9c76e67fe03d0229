//! Which signatures have to be checked before a spend or a block can be judged.
//!
//! Judging never checks a signature itself: it reads from a [`Verified`] record
//! which claims were found to hold. The functions here list the claims that a
//! judgement can depend on, so that each can be checked and settled first.
use vstd::prelude::*;

use crate::assoc::{assoc_map, keys_distinct, lemma_assoc_at, lemma_assoc_contains, lemma_push_set};
use crate::block::BlockModel;
use crate::bytes::{copy_bytes, len_u32};
use crate::chain::{
    after_spend, block_outcome, input_claim, input_key, inputs_fault, output_index, spend_outcome,
    spend_verdict, spends_outcome, with_outputs, without_inputs, Coins, StateModel,
};
use crate::hashing::hex_text;
use crate::ledger::replay;
use crate::sig::{claims_of, ClaimModel, SigClaim};
use crate::text::{copy_text, same_text};
use crate::tx::{tx_sighash, txid_of, txs_of, Transaction, TxInModel, TxModel, TxOutModel};
use crate::utxo::{utxo_pairs, OutputKey, Utxo, UtxoSet};

verus! {

/// An output with its name.
pub type NamedCoin = (OutputKey, TxOutModel);

/// The outputs of a set, with their names.
pub open spec fn named(coins: Coins) -> Set<NamedCoin> {
    Set::new(|p: NamedCoin| coins.contains_key(p.0) && coins[p.0] == p.1)
}

/// The outputs that a transaction makes, with their names.
pub open spec fn made_by(t: TxModel) -> Set<NamedCoin> {
    Set::new(
        |p: NamedCoin|
            exists|i: int|
                0 <= i < t.outputs.len() && p == (
                    (txid_of(t), output_index(i)),
                    #[trigger] t.outputs[i],
                ),
    )
}

/// The outputs that a set of transactions makes, with their names.
pub open spec fn made_by_any(txs: Set<TxModel>) -> Set<NamedCoin> {
    Set::new(|p: NamedCoin| exists|t: TxModel| #[trigger] txs.contains(t) && made_by(t).contains(p))
}

/// The claim that an input makes if it spends the given output.
pub open spec fn claims_coin(t: TxModel, i: int, p: NamedCoin, c: ClaimModel) -> bool {
    &&& 0 <= i < t.inputs.len()
    &&& p.0 == input_key(t.inputs[i])
    &&& c == input_claim(tx_sighash(t), t.inputs[i], p.1)
}

/// The claims that any order of spending can come to: an input of one of the
/// transactions, and an output of its name out of `coins` or made by one of the
/// transactions.
pub open spec fn wanted(coins: Set<NamedCoin>, txs: Set<TxModel>) -> Set<ClaimModel> {
    Set::new(
        |c: ClaimModel|
            exists|t: TxModel, i: int, p: NamedCoin|
                txs.contains(t) && coins.union(made_by_any(txs)).contains(p) && #[trigger] claims_coin(
                    t,
                    i,
                    p,
                    c,
                ),
    )
}

/// Whether two records agree on a set of claims.
pub open spec fn agree(a: Set<ClaimModel>, b: Set<ClaimModel>, on: Set<ClaimModel>) -> bool {
    forall|c: ClaimModel| on.contains(c) ==> (#[trigger] a.contains(c) == b.contains(c))
}

/// The outputs and transactions that judgements can draw on.
#[derive(Debug)]
pub struct ClaimScope {
    coins: Vec<Utxo>,
    txs: Vec<Transaction>,
}

/// The contents of a [`ClaimScope`].
#[verifier::ext_equal]
pub struct ScopeModel {
    pub coins: Set<NamedCoin>,
    pub txs: Set<TxModel>,
}

impl View for ClaimScope {
    type V = ScopeModel;

    closed spec fn view(&self) -> ScopeModel {
        ScopeModel { coins: utxo_pairs(self.coins@).to_set(), txs: txs_of(self.txs@).to_set() }
    }
}

impl ClaimScope {
    /// No output and no transaction.
    pub fn new() -> (r: Self)
        ensures
            r@ == (ScopeModel { coins: Set::empty(), txs: Set::empty() }),
    {
        let r = ClaimScope { coins: Vec::new(), txs: Vec::new() };
        assert(r@ =~= ScopeModel { coins: Set::empty(), txs: Set::empty() });
        r
    }

    /// Adds the unspent outputs.
    pub fn add_coins(&mut self, utxos: &UtxoSet)
        ensures
            final(self)@ == (ScopeModel {
                coins: old(self)@.coins.union(named(utxos@)),
                txs: old(self)@.txs,
            }),
    {
        let entries: &Vec<Utxo> = utxos.entries();
        let ghost pairs = utxo_pairs(entries@);
        let mut i: usize = 0;
        assert(pairs.take(0).to_set() =~= Set::empty());
        assert(self@ =~= (ScopeModel {
            coins: old(self)@.coins.union(pairs.take(0).to_set()),
            txs: old(self)@.txs,
        }));
        while i < entries.len()
            invariant
                i <= entries@.len(),
                pairs == utxo_pairs(entries@),
                self@ == (ScopeModel {
                    coins: old(self)@.coins.union(pairs.take(i as int).to_set()),
                    txs: old(self)@.txs,
                }),
            decreases entries@.len() - i,
        {
            let ghost was = utxo_pairs(self.coins@);
            let u: Utxo = entries[i].clone();
            let ghost p = (u.key(), u.coin());
            self.coins.push(u);
            i = i + 1;
            proof {
                assert(utxo_pairs(self.coins@) =~= was.push(p));
                assert(pairs.take(i as int) =~= pairs.take(i - 1).push(p));
                lemma_push_set(was, p);
                lemma_push_set(pairs.take(i - 1), p);
                assert(self@ =~= (ScopeModel {
                    coins: old(self)@.coins.union(pairs.take(i as int).to_set()),
                    txs: old(self)@.txs,
                }));
            }
        }
        proof {
            assert(pairs.take(i as int) =~= pairs);
            lemma_pairs_named(pairs);
        }
    }

    /// Adds transactions.
    pub fn add_txs(&mut self, txs: &Vec<Transaction>)
        ensures
            final(self)@ == (ScopeModel {
                coins: old(self)@.coins,
                txs: old(self)@.txs.union(txs_of(txs@).to_set()),
            }),
    {
        let ghost all = txs_of(txs@);
        let mut i: usize = 0;
        assert(all.take(0).to_set() =~= Set::empty());
        assert(self@ =~= (ScopeModel {
            coins: old(self)@.coins,
            txs: old(self)@.txs.union(all.take(0).to_set()),
        }));
        while i < txs.len()
            invariant
                i <= txs@.len(),
                all == txs_of(txs@),
                self@ == (ScopeModel {
                    coins: old(self)@.coins,
                    txs: old(self)@.txs.union(all.take(i as int).to_set()),
                }),
            decreases txs@.len() - i,
        {
            let ghost was = txs_of(self.txs@);
            let t: Transaction = txs[i].clone();
            self.txs.push(t);
            i = i + 1;
            proof {
                assert(txs_of(self.txs@) =~= was.push(t@));
                assert(all.take(i as int) =~= all.take(i - 1).push(t@));
                lemma_push_set(was, t@);
                lemma_push_set(all.take(i - 1), t@);
                assert(self@ =~= (ScopeModel {
                    coins: old(self)@.coins,
                    txs: old(self)@.txs.union(all.take(i as int).to_set()),
                }));
            }
        }
        assert(all.take(i as int) =~= all);
    }

    /// The given outputs and those that the transactions make.
    fn all_coins(&self) -> (r: Vec<Utxo>)
        ensures
            utxo_pairs(r@).to_set() == self@.coins.union(made_by_any(self@.txs)),
    {
        let mut out: Vec<Utxo> = Vec::new();
        let mut n: usize = 0;
        let ghost given = utxo_pairs(self.coins@);
        assert(utxo_pairs(out@) =~= given.take(0));
        while n < self.coins.len()
            invariant
                n <= self.coins@.len(),
                given == utxo_pairs(self.coins@),
                utxo_pairs(out@) == given.take(n as int),
            decreases self.coins@.len() - n,
        {
            let ghost was = utxo_pairs(out@);
            let u: Utxo = self.coins[n].clone();
            let ghost p = (u.key(), u.coin());
            out.push(u);
            n = n + 1;
            assert(utxo_pairs(out@) =~= was.push(p));
            assert(utxo_pairs(out@) =~= given.take(n as int));
        }
        assert(given.take(n as int) =~= given);
        let ghost all = txs_of(self.txs@);
        let mut i: usize = 0;
        assert(made_by_any(all.take(0).to_set()) =~= Set::empty());
        assert(utxo_pairs(out@).to_set() =~= self@.coins.union(
            made_by_any(all.take(0).to_set()),
        ));
        while i < self.txs.len()
            invariant
                i <= self.txs@.len(),
                all == txs_of(self.txs@),
                utxo_pairs(out@).to_set() == self@.coins.union(
                    made_by_any(all.take(i as int).to_set()),
                ),
            decreases self.txs@.len() - i,
        {
            let ghost was = utxo_pairs(out@);
            push_made(&mut out, &self.txs[i]);
            i = i + 1;
            proof {
                let t = self.txs@[i - 1]@;
                let front = all.take(i - 1);
                assert(all.take(i as int) =~= front.push(t));
                lemma_push_set(front, t);
                let a = made_by_any(front.push(t).to_set());
                let b = made_by_any(front.to_set()).union(made_by(t));
                assert forall|p: NamedCoin| a.contains(p) == b.contains(p) by {
                    if made_by(t).contains(p) {
                        assert(front.push(t).to_set().contains(t));
                    }
                    if made_by_any(front.to_set()).contains(p) {
                        let u = choose|u: TxModel| #[trigger]
                            front.to_set().contains(u) && made_by(u).contains(p);
                        assert(front.push(t).to_set().contains(u));
                    }
                }
                assert(a =~= b);
                assert(utxo_pairs(out@).to_set() =~= self@.coins.union(a));
            }
        }
        assert(all.take(i as int) =~= all);
        out
    }

    /// The claims that judgements on these outputs and transactions can depend
    /// on.
    pub fn claims(&self) -> (r: Vec<SigClaim>)
        ensures
            claims_of(r@).to_set() == wanted(self@.coins, self@.txs),
    {
        let coins: Vec<Utxo> = self.all_coins();
        let ghost pairs = utxo_pairs(coins@);
        let ghost all = txs_of(self.txs@);
        let mut out: Vec<SigClaim> = Vec::new();
        let mut i: usize = 0;
        assert(claims_of(out@) =~= Seq::empty());
        while i < self.txs.len()
            invariant
                i <= self.txs@.len(),
                all == txs_of(self.txs@),
                pairs == utxo_pairs(coins@),
                forall|c: ClaimModel|
                    #![trigger claims_of(out@).contains(c)]
                    claims_of(out@).contains(c) <==> exists|t: int, n: int, p: int|
                        0 <= t < i && 0 <= p < pairs.len() && #[trigger] claims_coin(
                            all[t],
                            n,
                            pairs[p],
                            c,
                        ),
            decreases self.txs@.len() - i,
        {
            let ghost was = claims_of(out@);
            push_tx_claims(&mut out, &self.txs[i], &coins);
            proof {
                let now = claims_of(out@);
                let t = all[i as int];
                assert forall|c: ClaimModel| #![trigger now.contains(c)]
                    now.contains(c) <==> exists|t: int, n: int, p: int|
                        0 <= t < i + 1 && 0 <= p < pairs.len() && #[trigger] claims_coin(
                            all[t],
                            n,
                            pairs[p],
                            c,
                        ) by {
                    if was.contains(c) {
                        let (a, n, p) = choose|a: int, n: int, p: int|
                            0 <= a < i && 0 <= p < pairs.len() && #[trigger] claims_coin(
                                all[a],
                                n,
                                pairs[p],
                                c,
                            );
                        assert(claims_coin(all[a], n, pairs[p], c));
                    }
                    if exists|n: int, p: int|
                        0 <= p < pairs.len() && #[trigger] claims_coin(t, n, pairs[p], c) {
                        let (n, p) = choose|n: int, p: int|
                            0 <= p < pairs.len() && #[trigger] claims_coin(t, n, pairs[p], c);
                        assert(claims_coin(all[i as int], n, pairs[p], c));
                    }
                    if exists|t: int, n: int, p: int|
                        0 <= t < i + 1 && 0 <= p < pairs.len() && #[trigger] claims_coin(
                            all[t],
                            n,
                            pairs[p],
                            c,
                        ) {
                        let (a, n, p) = choose|a: int, n: int, p: int|
                            0 <= a < i + 1 && 0 <= p < pairs.len() && #[trigger] claims_coin(
                                all[a],
                                n,
                                pairs[p],
                                c,
                            );
                        if a < i {
                            assert(was.contains(c));
                        } else {
                            assert(claims_coin(t, n, pairs[p], c));
                        }
                    }
                }
            }
            i = i + 1;
        }
        proof {
            let got = claims_of(out@);
            let want = wanted(self@.coins, self@.txs);
            assert forall|c: ClaimModel| got.to_set().contains(c) == want.contains(c) by {
                if got.contains(c) {
                    let (t, n, p) = choose|t: int, n: int, p: int|
                        0 <= t < i && 0 <= p < pairs.len() && #[trigger] claims_coin(
                            all[t],
                            n,
                            pairs[p],
                            c,
                        );
                    assert(self@.txs.contains(all[t]));
                    assert(pairs.to_set().contains(pairs[p]));
                    assert(claims_coin(all[t], n, pairs[p], c));
                }
                if want.contains(c) {
                    let (t, n, p) = choose|t: TxModel, n: int, p: NamedCoin|
                        self@.txs.contains(t) && self@.coins.union(
                            made_by_any(self@.txs),
                        ).contains(p) && #[trigger] claims_coin(t, n, p, c);
                    assert(all.contains(t));
                    let a = choose|a: int| 0 <= a < all.len() && all[a] == t;
                    assert(pairs.to_set().contains(p));
                    let q = choose|q: int| 0 <= q < pairs.len() && pairs[q] == p;
                    assert(claims_coin(all[a], n, pairs[q], c));
                }
            }
            assert(got.to_set() =~= want);
        }
        out
    }
}

/// The pairs of a list without repeated keys are the outputs of its map.
proof fn lemma_pairs_named(pairs: Seq<NamedCoin>)
    requires
        keys_distinct(pairs),
    ensures
        pairs.to_set() == named(assoc_map(pairs)),
{
    let m = assoc_map(pairs);
    assert forall|p: NamedCoin| pairs.to_set().contains(p) == named(m).contains(p) by {
        if pairs.contains(p) {
            let i = choose|i: int| 0 <= i < pairs.len() && pairs[i] == p;
            lemma_assoc_at(pairs, i);
        }
        if named(m).contains(p) {
            lemma_assoc_contains(pairs, p.0);
            let i = choose|i: int| 0 <= i < pairs.len() && (#[trigger] pairs[i]).0 == p.0;
            lemma_assoc_at(pairs, i);
            assert(pairs[i] == p);
        }
    }
    assert(pairs.to_set() =~= named(m));
}

/// Appends the outputs that a transaction makes.
fn push_made(out: &mut Vec<Utxo>, tx: &Transaction)
    ensures
        utxo_pairs(final(out)@).to_set() == utxo_pairs(old(out)@).to_set().union(made_by(tx@)),
{
    let txid: String = tx.txid();
    let ghost before = utxo_pairs(out@);
    let mut k: usize = 0;
    while k < tx.outputs.len()
        invariant
            k <= tx.outputs@.len(),
            txid@ == txid_of(tx@),
            utxo_pairs(out@).len() == before.len() + k,
            utxo_pairs(out@).take(before.len() as int) == before,
            forall|j: int|
                0 <= j < k ==> #[trigger] utxo_pairs(out@)[before.len() + j] == (
                    (txid_of(tx@), output_index(j)),
                    tx@.outputs[j],
                ),
        decreases tx.outputs@.len() - k,
    {
        let ghost was = utxo_pairs(out@);
        let index: u32 = len_u32(k);
        let u = Utxo {
            txid: copy_text(&txid),
            vout: index,
            value: tx.outputs[k].value,
            pubkey: copy_bytes(&tx.outputs[k].pubkey),
        };
        let ghost p = (u.key(), u.coin());
        out.push(u);
        proof {
            assert(index == output_index(k as int));
            assert(p == ((txid_of(tx@), output_index(k as int)), tx@.outputs[k as int]));
            assert(utxo_pairs(out@) =~= was.push(p));
            assert(utxo_pairs(out@).take(before.len() as int) =~= was.take(before.len() as int));
            assert forall|j: int| 0 <= j < k + 1 implies #[trigger] utxo_pairs(
                out@,
            )[before.len() + j] == ((txid_of(tx@), output_index(j)), tx@.outputs[j]) by {
                if j < k {
                    assert(was[before.len() + j] == (
                        (txid_of(tx@), output_index(j)),
                        tx@.outputs[j],
                    ));
                }
            }
        }
        k = k + 1;
    }
    proof {
        let now = utxo_pairs(out@);
        let n = before.len() as int;
        let want = before.to_set().union(made_by(tx@));
        assert forall|p: NamedCoin| now.to_set().contains(p) == want.contains(p) by {
            if now.contains(p) {
                let i = choose|i: int| 0 <= i < now.len() && now[i] == p;
                if i < n {
                    assert(now.take(n)[i] == p);
                    assert(before[i] == p);
                } else {
                    assert(now[n + (i - n)] == p);
                    assert(p == ((txid_of(tx@), output_index(i - n)), tx@.outputs[i - n]));
                }
            }
            if before.contains(p) {
                let i = choose|i: int| 0 <= i < before.len() && before[i] == p;
                assert(now.take(n)[i] == p);
                assert(now[i] == p);
            }
            if made_by(tx@).contains(p) {
                let j = choose|j: int|
                    0 <= j < tx@.outputs.len() && p == (
                        (txid_of(tx@), output_index(j)),
                        #[trigger] tx@.outputs[j],
                    );
                assert(now[n + j] == p);
            }
        }
        assert(now.to_set() =~= want);
    }
}

/// Appends the claims that a transaction's inputs make on the given outputs.
fn push_tx_claims(out: &mut Vec<SigClaim>, tx: &Transaction, coins: &Vec<Utxo>)
    ensures
        forall|c: ClaimModel|
            #![trigger claims_of(final(out)@).contains(c)]
            claims_of(final(out)@).contains(c) <==> claims_of(old(out)@).contains(c) || exists|
                n: int,
                p: int,
            |
                0 <= p < coins@.len() && #[trigger] claims_coin(
                    tx@,
                    n,
                    utxo_pairs(coins@)[p],
                    c,
                ),
{
    let sighash: [u8; 32] = tx.sighash();
    let ghost before = claims_of(out@);
    let ghost pairs = utxo_pairs(coins@);
    let mut i: usize = 0;
    while i < tx.inputs.len()
        invariant
            i <= tx.inputs@.len(),
            sighash@ == tx_sighash(tx@),
            pairs == utxo_pairs(coins@),
            forall|c: ClaimModel|
                #![trigger claims_of(out@).contains(c)]
                claims_of(out@).contains(c) <==> before.contains(c) || exists|n: int, p: int|
                    n < i && 0 <= p < pairs.len() && #[trigger] claims_coin(tx@, n, pairs[p], c),
        decreases tx.inputs@.len() - i,
    {
        let ghost outer = claims_of(out@);
        let name: String = hex_text(tx.inputs[i].prev_txid.as_slice());
        let mut q: usize = 0;
        while q < coins.len()
            invariant
                i < tx.inputs@.len(),
                q <= coins@.len(),
                sighash@ == tx_sighash(tx@),
                pairs == utxo_pairs(coins@),
                (name@, tx.inputs@[i as int].vout) == input_key(tx@.inputs[i as int]),
                forall|c: ClaimModel|
                    #![trigger claims_of(out@).contains(c)]
                    claims_of(out@).contains(c) <==> outer.contains(c) || exists|p: int|
                        0 <= p < q && #[trigger] claims_coin(tx@, i as int, pairs[p], c),
            decreases coins@.len() - q,
        {
            let ghost was = claims_of(out@);
            let u: &Utxo = &coins[q];
            if u.vout == tx.inputs[i].vout && same_text(&u.txid, &name) {
                let claim = SigClaim {
                    pubkey: copy_bytes(&u.pubkey),
                    message: copy_bytes(sighash.as_slice()),
                    signature: copy_bytes(&tx.inputs[i].signature),
                };
                let ghost cm = claim@;
                out.push(claim);
                proof {
                    assert(claims_of(out@) =~= was.push(cm));
                    lemma_push_set(was, cm);
                    assert(claims_coin(tx@, i as int, pairs[q as int], cm));
                    assert forall|c: ClaimModel| #![trigger claims_of(out@).contains(c)]
                        claims_of(out@).contains(c) <==> (was.contains(c) || c == cm) by {
                        assert(claims_of(out@).to_set().contains(c) == was.to_set().insert(
                            cm,
                        ).contains(c));
                    }
                }
            }
            proof {
                assert forall|c: ClaimModel| #![trigger claims_of(out@).contains(c)]
                    claims_of(out@).contains(c) <==> outer.contains(c) || exists|p: int|
                        0 <= p < q + 1 && #[trigger] claims_coin(tx@, i as int, pairs[p], c) by {
                    if was.contains(c) && !outer.contains(c) {
                        let p = choose|p: int|
                            0 <= p < q && #[trigger] claims_coin(tx@, i as int, pairs[p], c);
                        assert(claims_coin(tx@, i as int, pairs[p], c));
                    }
                    if claims_coin(tx@, i as int, pairs[q as int], c) {
                        assert(claims_of(out@).contains(c));
                    }
                }
            }
            q = q + 1;
        }
        proof {
            assert forall|c: ClaimModel| #![trigger claims_of(out@).contains(c)]
                claims_of(out@).contains(c) <==> before.contains(c) || exists|n: int, p: int|
                    n < i + 1 && 0 <= p < pairs.len() && #[trigger] claims_coin(
                        tx@,
                        n,
                        pairs[p],
                        c,
                    ) by {
                if outer.contains(c) && !before.contains(c) {
                    let (n, p) = choose|n: int, p: int|
                        n < i && 0 <= p < pairs.len() && #[trigger] claims_coin(
                            tx@,
                            n,
                            pairs[p],
                            c,
                        );
                    assert(claims_coin(tx@, n, pairs[p], c));
                }
                if exists|p: int|
                    0 <= p < q && #[trigger] claims_coin(tx@, i as int, pairs[p], c) {
                    let p = choose|p: int|
                        0 <= p < q && #[trigger] claims_coin(tx@, i as int, pairs[p], c);
                    assert(claims_coin(tx@, i as int, pairs[p], c));
                }
                if exists|n: int, p: int|
                    n < i + 1 && 0 <= p < pairs.len() && #[trigger] claims_coin(
                        tx@,
                        n,
                        pairs[p],
                        c,
                    ) {
                    let (n, p) = choose|n: int, p: int|
                        n < i + 1 && 0 <= p < pairs.len() && #[trigger] claims_coin(
                            tx@,
                            n,
                            pairs[p],
                            c,
                        );
                    if n < i {
                        assert(outer.contains(c));
                    } else {
                        assert(claims_coin(tx@, i as int, pairs[p], c));
                    }
                }
            }
        }
        i = i + 1;
    }
    proof {
        assert forall|c: ClaimModel| #![trigger claims_of(out@).contains(c)]
            claims_of(out@).contains(c) <==> before.contains(c) || exists|n: int, p: int|
                0 <= p < coins@.len() && #[trigger] claims_coin(tx@, n, pairs[p], c) by {
            if exists|n: int, p: int|
                0 <= p < coins@.len() && #[trigger] claims_coin(tx@, n, pairs[p], c) {
                let (n, p) = choose|n: int, p: int|
                    0 <= p < coins@.len() && #[trigger] claims_coin(tx@, n, pairs[p], c);
                assert(claims_coin(tx@, n, pairs[p], c) && n < i);
            }
        }
    }
}

// ---------------------------------------------------------------------------
// judgements depend on nothing else
// ---------------------------------------------------------------------------

/// The outputs that judgements can meet.
pub open spec fn reachable(coins: Set<NamedCoin>, txs: Set<TxModel>) -> Set<NamedCoin> {
    coins.union(made_by_any(txs))
}

proof fn lemma_without_named(coins: Coins, inputs: Seq<TxInModel>)
    ensures
        named(without_inputs(coins, inputs)).subset_of(named(coins)),
    decreases inputs.len(),
{
    if inputs.len() > 0 {
        lemma_without_named(coins, inputs.drop_last());
    }
}

proof fn lemma_with_named(coins: Coins, t: TxModel, n: int)
    requires
        0 <= n <= t.outputs.len(),
    ensures
        named(with_outputs(coins, txid_of(t), t.outputs.take(n))).subset_of(
            named(coins).union(made_by(t)),
        ),
    decreases n,
{
    if n > 0 {
        lemma_with_named(coins, t, n - 1);
        assert(t.outputs.take(n).drop_last() =~= t.outputs.take(n - 1));
        assert(t.outputs.take(n).last() == t.outputs[n - 1]);
        let p = ((txid_of(t), output_index(n - 1)), t.outputs[n - 1]);
        assert(made_by(t).contains(p));
    }
}

proof fn lemma_spend_stays_reachable(
    coins: Coins,
    t: TxModel,
    given: Set<NamedCoin>,
    txs: Set<TxModel>,
)
    requires
        named(coins).subset_of(reachable(given, txs)),
        txs.contains(t),
    ensures
        named(after_spend(coins, t)).subset_of(reachable(given, txs)),
{
    let mid = without_inputs(coins, t.inputs);
    lemma_without_named(coins, t.inputs);
    lemma_with_named(mid, t, t.outputs.len() as int);
    assert(t.outputs.take(t.outputs.len() as int) =~= t.outputs);
    assert forall|p: NamedCoin| named(after_spend(coins, t)).contains(p) implies reachable(
        given,
        txs,
    ).contains(p) by {
        if made_by(t).contains(p) {
            assert(txs.contains(t));
        }
    }
}

proof fn lemma_inputs_agree(
    coins: Coins,
    t: TxModel,
    n: int,
    a: Set<ClaimModel>,
    b: Set<ClaimModel>,
    given: Set<NamedCoin>,
    txs: Set<TxModel>,
)
    requires
        named(coins).subset_of(reachable(given, txs)),
        txs.contains(t),
        agree(a, b, wanted(given, txs)),
        0 <= n <= t.inputs.len(),
    ensures
        inputs_fault(coins, tx_sighash(t), t.inputs.skip(n), a) == inputs_fault(
            coins,
            tx_sighash(t),
            t.inputs.skip(n),
            b,
        ),
    decreases t.inputs.len() - n,
{
    let rest = t.inputs.skip(n);
    if n < t.inputs.len() {
        lemma_inputs_agree(coins, t, n + 1, a, b, given, txs);
        assert(rest.drop_first() =~= t.inputs.skip(n + 1));
        assert(rest[0] == t.inputs[n]);
        let k = input_key(rest[0]);
        if coins.contains_key(k) {
            let p = (k, coins[k]);
            let c = input_claim(tx_sighash(t), rest[0], coins[k]);
            assert(named(coins).contains(p));
            assert(claims_coin(t, n, p, c));
            assert(wanted(given, txs).contains(c));
            assert(a.contains(c) == b.contains(c));
        }
    }
}

/// Whether a spend is accepted depends on the record only through the claims
/// that its scope lists.
pub proof fn law_spend_depends_on_listed_claims(
    coins: Coins,
    t: TxModel,
    a: Set<ClaimModel>,
    b: Set<ClaimModel>,
    given: Set<NamedCoin>,
    txs: Set<TxModel>,
)
    requires
        named(coins).subset_of(reachable(given, txs)),
        txs.contains(t),
        agree(a, b, wanted(given, txs)),
    ensures
        spend_verdict(coins, t, a) == spend_verdict(coins, t, b),
        spend_outcome(coins, t, a) == spend_outcome(coins, t, b),
{
    lemma_inputs_agree(coins, t, 0, a, b, given, txs);
    assert(t.inputs.skip(0) =~= t.inputs);
}

proof fn lemma_spends_agree(
    coins: Coins,
    list: Seq<TxModel>,
    a: Set<ClaimModel>,
    b: Set<ClaimModel>,
    given: Set<NamedCoin>,
    txs: Set<TxModel>,
)
    requires
        named(coins).subset_of(reachable(given, txs)),
        list.to_set().subset_of(txs),
        agree(a, b, wanted(given, txs)),
    ensures
        spends_outcome(coins, list, a) == spends_outcome(coins, list, b),
        spends_outcome(coins, list, a) matches Ok(m) ==> named(m).subset_of(reachable(given, txs)),
    decreases list.len(),
{
    if list.len() > 0 {
        let t = list[0];
        let rest = list.drop_first();
        assert(list.to_set().contains(t));
        law_spend_depends_on_listed_claims(coins, t, a, b, given, txs);
        lemma_spend_stays_reachable(coins, t, given, txs);
        assert forall|u: TxModel| rest.to_set().contains(u) implies txs.contains(u) by {
            let i = choose|i: int| 0 <= i < rest.len() && rest[i] == u;
            assert(list[i + 1] == u);
            assert(list.to_set().contains(u));
        }
        lemma_spends_agree(after_spend(coins, t), rest, a, b, given, txs);
    }
}

/// What a block comes to depends on the record only through the claims that
/// its scope lists: those on the unspent outputs and on the outputs that the
/// listed transactions make.
pub proof fn law_block_depends_on_listed_claims(
    s: StateModel,
    blk: BlockModel,
    reward: u64,
    a: Set<ClaimModel>,
    b: Set<ClaimModel>,
    given: Set<NamedCoin>,
    txs: Set<TxModel>,
)
    requires
        named(s.utxos).subset_of(reachable(given, txs)),
        blk.transactions.to_set().subset_of(txs),
        agree(a, b, wanted(given, txs)),
    ensures
        block_outcome(s, blk, reward, a) == block_outcome(s, blk, reward, b),
        block_outcome(s, blk, reward, a) matches Ok(next) ==> named(next.utxos).subset_of(
            reachable(given, txs),
        ),
{
    if blk.transactions.len() > 0 {
        let list = blk.transactions.drop_first();
        let cb = blk.transactions[0];
        assert forall|u: TxModel| list.to_set().contains(u) implies txs.contains(u) by {
            let i = choose|i: int| 0 <= i < list.len() && list[i] == u;
            assert(blk.transactions[i + 1] == u);
            assert(blk.transactions.to_set().contains(u));
        }
        assert(blk.transactions.to_set().contains(cb));
        lemma_spends_agree(s.utxos, list, a, b, given, txs);
        if cb.outputs.len() > 0 {
            let p = ((txid_of(cb), 0u32), cb.outputs[0]);
            assert(output_index(0) == 0);
            assert(made_by(cb).contains(p));
            assert(reachable(given, txs).contains(p));
        }
    }
}

/// The same of a list of blocks, appended one after the other.
pub proof fn law_replay_depends_on_listed_claims(
    s: StateModel,
    blocks: Seq<BlockModel>,
    reward: u64,
    a: Set<ClaimModel>,
    b: Set<ClaimModel>,
    given: Set<NamedCoin>,
    txs: Set<TxModel>,
)
    requires
        named(s.utxos).subset_of(reachable(given, txs)),
        forall|i: int|
            0 <= i < blocks.len() ==> (#[trigger] blocks[i]).transactions.to_set().subset_of(txs),
        agree(a, b, wanted(given, txs)),
    ensures
        replay(s, blocks, reward, a) == replay(s, blocks, reward, b),
        replay(s, blocks, reward, a) matches Ok(next) ==> named(next.utxos).subset_of(
            reachable(given, txs),
        ),
    decreases blocks.len(),
{
    if blocks.len() > 0 {
        let rest = blocks.drop_first();
        law_block_depends_on_listed_claims(s, blocks[0], reward, a, b, given, txs);
        assert forall|i: int| 0 <= i < rest.len() implies (
        #[trigger] rest[i]).transactions.to_set().subset_of(txs) by {
            assert(rest[i] == blocks[i + 1]);
        }
        if block_outcome(s, blocks[0], reward, a) is Ok {
            let next = block_outcome(s, blocks[0], reward, a)->Ok_0;
            law_replay_depends_on_listed_claims(next, rest, reward, a, b, given, txs);
        }
    }
}

} // verus!
