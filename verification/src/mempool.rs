//! The pool of unconfirmed transactions: admission, removal and relay.
//!
//! A transaction is admitted if it may spend from the current outputs, is not
//! pooled already, and spends no output that a pooled transaction spends. The
//! pool is bounded; a full pool makes room by dropping its oldest transaction.
use vstd::prelude::*;

use crate::block::Block;
use crate::bytes::same_bytes;
use crate::chain::{input_claim, input_key, spend_verdict, ChainState, Coins, NodeError};
use crate::codec::{payload, push_tx_refs, tx, tx_bytes, tx_refs};
use crate::hashing::lemma_hex_injective;
use crate::ledger::law_spend_is_authorized;
use crate::sig::{ClaimModel, Verified};
use crate::text::{copy_text, same_text};
use crate::tx::{tx_sighash, txid_of, txins, txs_of, Transaction, TxIn, TxModel};
use crate::wire::{counted, listed, NetError, Reader};

verus! {

/// Hard cap: mempool holds at most MAX_POOL transactions (FIFO eviction).
pub const MAX_POOL: usize = 4096;

/// Why a transaction is not admitted.
#[derive(Debug, Clone, Copy, PartialEq, Eq, Structural)]
pub enum MempoolError {
    /// Full validation failed (PQ sig, unknown prevout, overspend).
    Invalid(NodeError),
    /// Exact same txid is already pooled.
    Duplicate,
    /// A pooled tx already spends one of these prevouts.
    Conflicting,
    /// Pool at MAX_POOL and closed to new transactions. Admission never answers
    /// this: a full pool drops its oldest transaction instead.
    Full,
}

impl MempoolError {
    /// The error in words.
    pub open spec fn words(self) -> Seq<char> {
        match self {
            MempoolError::Invalid(e) => "invalid tx: "@ + e.words(),
            MempoolError::Duplicate => "duplicate txid"@,
            MempoolError::Conflicting => "conflicts with pooled tx"@,
            MempoolError::Full => "mempool full"@,
        }
    }

    /// The error in words.
    pub fn describe(&self) -> (r: String)
        ensures
            r@ == self.words(),
    {
        match self {
            MempoolError::Invalid(e) => {
                let mut s: String = copy_text("invalid tx: ");
                let d: String = e.describe();
                s.append(&d);
                s
            },
            MempoolError::Duplicate => copy_text("duplicate txid"),
            MempoolError::Conflicting => copy_text("conflicts with pooled tx"),
            MempoolError::Full => copy_text("mempool full"),
        }
    }
}

// ---------------------------------------------------------------------------
// the pool as a list, the oldest transaction first
// ---------------------------------------------------------------------------

/// Whether two transactions spend the same output.
pub open spec fn conflict(a: TxModel, b: TxModel) -> bool {
    exists|i: int, j: int|
        0 <= i < a.inputs.len() && 0 <= j < b.inputs.len() && input_key(#[trigger] a.inputs[i])
            == input_key(#[trigger] b.inputs[j])
}

/// Whether a transaction with the identifier is pooled.
pub open spec fn pooled(pool: Seq<TxModel>, txid: Seq<char>) -> bool {
    exists|i: int| 0 <= i < pool.len() && txid_of(#[trigger] pool[i]) == txid
}

/// Whether a pooled transaction spends an output that `t` spends.
pub open spec fn conflicts_with(pool: Seq<TxModel>, t: TxModel) -> bool {
    exists|i: int| 0 <= i < pool.len() && conflict(#[trigger] pool[i], t)
}

/// What holds of every pool: it is bounded, no transaction is in it twice, and
/// no two of its transactions spend the same output.
pub open spec fn pool_ok(pool: Seq<TxModel>) -> bool {
    &&& pool.len() <= MAX_POOL
    &&& forall|i: int, j: int|
        0 <= i < j < pool.len() ==> txid_of(#[trigger] pool[i]) != txid_of(#[trigger] pool[j])
    &&& forall|i: int, j: int|
        0 <= i < j < pool.len() ==> !conflict(#[trigger] pool[i], #[trigger] pool[j])
}

/// The pool with a transaction admitted; a full pool drops its oldest one.
pub open spec fn admitted(pool: Seq<TxModel>, t: TxModel) -> Seq<TxModel> {
    if pool.len() >= MAX_POOL {
        pool.drop_first().push(t)
    } else {
        pool.push(t)
    }
}

/// What offering a transaction to the pool comes to: the pool after it, or why
/// it is not admitted.
pub open spec fn accept_outcome(
    pool: Seq<TxModel>,
    t: TxModel,
    coins: Coins,
    verified: Set<ClaimModel>,
) -> Result<Seq<TxModel>, MempoolError> {
    match spend_verdict(coins, t, verified) {
        Err(e) => Err(MempoolError::Invalid(e)),
        Ok(_) => if pooled(pool, txid_of(t)) {
            Err(MempoolError::Duplicate)
        } else if conflicts_with(pool, t) {
            Err(MempoolError::Conflicting)
        } else {
            Ok(admitted(pool, t))
        },
    }
}

/// Whether a pooled transaction stays when `t` is mined: it is another one and
/// spends none of the outputs that `t` spends.
pub open spec fn outlives(x: TxModel, t: TxModel) -> bool {
    txid_of(x) != txid_of(t) && !conflict(x, t)
}

/// The pool without `t` and without the transactions that conflict with it.
pub open spec fn without_mined(pool: Seq<TxModel>, t: TxModel) -> Seq<TxModel>
    decreases pool.len(),
{
    if pool.len() == 0 {
        Seq::empty()
    } else {
        let front = without_mined(pool.drop_last(), t);
        if outlives(pool.last(), t) {
            front.push(pool.last())
        } else {
            front
        }
    }
}

/// The pool without any of the transactions and what conflicts with them.
pub open spec fn without_all_mined(pool: Seq<TxModel>, txs: Seq<TxModel>) -> Seq<TxModel>
    decreases txs.len(),
{
    if txs.len() == 0 {
        pool
    } else {
        without_mined(without_all_mined(pool, txs.drop_last()), txs.last())
    }
}

fn in_conflict(a: &Transaction, b: &Transaction) -> (r: bool)
    ensures
        r == conflict(a@, b@),
{
    let ghost x = a@.inputs;
    let ghost y = b@.inputs;
    let mut i: usize = 0;
    while i < a.inputs.len()
        invariant
            i <= a.inputs@.len(),
            x == txins(a.inputs@),
            y == txins(b.inputs@),
            x == a@.inputs,
            y == b@.inputs,
            forall|p: int, q: int|
                0 <= p < i && 0 <= q < y.len() ==> input_key(#[trigger] x[p]) != input_key(
                    #[trigger] y[q],
                ),
        decreases a.inputs@.len() - i,
    {
        let mut j: usize = 0;
        while j < b.inputs.len()
            invariant
                i < a.inputs@.len(),
                j <= b.inputs@.len(),
                x == txins(a.inputs@),
                y == txins(b.inputs@),
                x == a@.inputs,
                y == b@.inputs,
                forall|q: int|
                    0 <= q < j ==> input_key(x[i as int]) != input_key(#[trigger] y[q]),
            decreases b.inputs@.len() - j,
        {
            let p: &TxIn = &a.inputs[i];
            let q: &TxIn = &b.inputs[j];
            if p.vout == q.vout && same_bytes(p.prev_txid.as_slice(), q.prev_txid.as_slice()) {
                assert(input_key(x[i as int]) == input_key(y[j as int]));
                return true;
            }
            proof {
                if input_key(x[i as int]) == input_key(y[j as int]) {
                    lemma_hex_injective(p.prev_txid@, q.prev_txid@);
                }
            }
            j = j + 1;
        }
        i = i + 1;
    }
    false
}

// ---------------------------------------------------------------------------
// the pool
// ---------------------------------------------------------------------------

/// The pool of unconfirmed transactions; its view lists them, the oldest first.
#[derive(Debug)]
pub struct Mempool {
    list: Vec<Transaction>,
    ids: Vec<String>,
}

impl View for Mempool {
    type V = Seq<TxModel>;

    closed spec fn view(&self) -> Seq<TxModel> {
        txs_of(self.list@)
    }
}

spec fn ids_match(ids: Seq<String>, list: Seq<Transaction>) -> bool {
    &&& ids.len() == list.len()
    &&& forall|i: int| 0 <= i < ids.len() ==> (#[trigger] ids[i])@ == txid_of(txs_of(list)[i])
}

impl Mempool {
    #[verifier::type_invariant]
    spec fn inv(self) -> bool {
        ids_match(self.ids@, self.list@) && pool_ok(txs_of(self.list@))
    }

    /// The empty pool.
    pub fn new() -> (r: Self)
        ensures
            r@ == Seq::<TxModel>::empty(),
    {
        let r = Mempool { list: Vec::new(), ids: Vec::new() };
        assert(r@ =~= Seq::empty());
        r
    }

    /// Where the transaction with the identifier stands.
    fn position(&self, txid: &str) -> (r: Option<usize>)
        ensures
            match r {
                Some(i) => i < self.list@.len() && txid_of(self.list@[i as int]@) == txid@,
                None => !pooled(self@, txid@),
            },
    {
        proof {
            use_type_invariant(self);
        }
        let mut i: usize = 0;
        while i < self.ids.len()
            invariant
                i <= self.ids@.len(),
                ids_match(self.ids@, self.list@),
                forall|j: int| 0 <= j < i ==> txid_of(#[trigger] self@[j]) != txid@,
            decreases self.ids@.len() - i,
        {
            if same_text(&self.ids[i], txid) {
                assert(txs_of(self.list@)[i as int] == self.list@[i as int]@);
                return Some(i);
            }
            assert(self.ids@[i as int]@ == txid_of(self@[i as int]));
            i = i + 1;
        }
        None
    }

    /// Whether a pooled transaction spends an output that `tx` spends.
    fn conflicting(&self, tx: &Transaction) -> (r: bool)
        ensures
            r == conflicts_with(self@, tx@),
    {
        let mut i: usize = 0;
        while i < self.list.len()
            invariant
                i <= self.list@.len(),
                forall|j: int| 0 <= j < i ==> !conflict(#[trigger] self@[j], tx@),
            decreases self.list@.len() - i,
        {
            if in_conflict(&self.list[i], tx) {
                assert(conflict(self@[i as int], tx@));
                return true;
            }
            i = i + 1;
        }
        false
    }

    /// Validate + admit one transaction.
    pub fn accept(&mut self, tx: &Transaction, chain: &ChainState, verified: &Verified) -> (r:
        Result<(), MempoolError>)
        ensures
            match accept_outcome(old(self)@, tx@, chain@.utxos, verified@) {
                Ok(pool) => r is Ok && final(self)@ == pool,
                Err(e) => r == Err::<(), MempoolError>(e) && final(self)@ == old(self)@,
            },
            pool_ok(final(self)@),
    {
        proof {
            use_type_invariant(&*self);
        }
        match chain.validate_spend(tx, verified) {
            Ok(_) => {},
            Err(e) => {
                return Err(MempoolError::Invalid(e));
            },
        }
        let txid: String = tx.txid();
        if self.position(&txid).is_some() {
            proof {
                let i = choose|i: int|
                    0 <= i < self.list@.len() && txid_of(self.list@[i]@) == txid@;
                assert(self@[i] == self.list@[i]@);
            }
            return Err(MempoolError::Duplicate);
        }
        if self.conflicting(tx) {
            return Err(MempoolError::Conflicting);
        }
        let ghost before = self@;
        let mut list: Vec<Transaction> = Vec::new();
        let mut ids: Vec<String> = Vec::new();
        proof {
            law_accept_keeps_pool_ok(before, tx@, chain@.utxos, verified@);
        }
        let ghost old_list = self.list@;
        let ghost old_ids = self.ids@;
        let full: bool = self.list.len() >= MAX_POOL;
        self.give_up(&mut list, &mut ids);
        if full {
            list.remove(0);
            ids.remove(0);
        }
        list.push(tx.clone());
        ids.push(txid);
        proof {
            assert(txs_of(list@) =~= admitted(before, tx@));
            assert forall|i: int| 0 <= i < ids@.len() implies (#[trigger] ids@[i])@ == txid_of(
                txs_of(list@)[i],
            ) by {
                let k = if full {
                    i + 1
                } else {
                    i
                };
                if i < ids@.len() - 1 {
                    assert(ids@[i] == old_ids[k]);
                    assert(txs_of(list@)[i] == txs_of(old_list)[k]);
                    assert(old_ids[k]@ == txid_of(txs_of(old_list)[k]));
                }
            }
        }
        *self = Mempool { list, ids };
        Ok(())
    }

    /// Hands the lists out and leaves the pool empty.
    fn give_up(&mut self, list: &mut Vec<Transaction>, ids: &mut Vec<String>)
        ensures
            final(list)@ == old(self).list@,
            final(ids)@ == old(self).ids@,
            final(self)@ == Seq::<TxModel>::empty(),
    {
        let mut fresh = Mempool::new();
        core::mem::swap(self, &mut fresh);
        let Mempool { list: l, ids: n } = fresh;
        *list = l;
        *ids = n;
    }

    /// The pooled transaction with the identifier.
    pub fn get(&self, txid: &str) -> (r: Option<&Transaction>)
        ensures
            match r {
                Some(t) => self@.contains(t@) && txid_of(t@) == txid@,
                None => !pooled(self@, txid@),
            },
    {
        match self.position(txid) {
            Some(i) => {
                assert(self@[i as int] == self.list@[i as int]@);
                Some(&self.list[i])
            },
            None => None,
        }
    }

    /// The number of pooled transactions.
    pub fn len(&self) -> (r: usize)
        ensures
            r == self@.len(),
            pool_ok(self@),
    {
        proof {
            use_type_invariant(self);
        }
        self.list.len()
    }

    /// Whether nothing is pooled.
    pub fn is_empty(&self) -> (r: bool)
        ensures
            r == (self@.len() == 0),
    {
        self.list.len() == 0
    }

    /// Transactions in insertion (first-seen) order.
    pub fn txs(&self) -> (r: Vec<&Transaction>)
        ensures
            tx_refs(r@) == self@,
    {
        let mut out: Vec<&Transaction> = Vec::new();
        let mut i: usize = 0;
        while i < self.list.len()
            invariant
                i <= self.list@.len(),
                tx_refs(out@) == self@.take(i as int),
            decreases self.list@.len() - i,
        {
            let ghost was = tx_refs(out@);
            out.push(&self.list[i]);
            i = i + 1;
            assert(tx_refs(out@) =~= was.push(self@[i - 1]));
            assert(tx_refs(out@) =~= self@.take(i as int));
        }
        assert(self@.take(i as int) =~= self@);
        out
    }

    /// Drop one tx (e.g. after it was mined into a block) and every pooled tx
    /// that conflicts with it (spent the same prevouts).
    pub fn remove_mined(&mut self, tx: &Transaction)
        ensures
            final(self)@ == without_mined(old(self)@, tx@),
            pool_ok(final(self)@),
    {
        proof {
            use_type_invariant(&*self);
        }
        let ghost before = self@;
        let txid: String = tx.txid();
        let mut kept: Vec<Transaction> = Vec::new();
        let mut kept_ids: Vec<String> = Vec::new();
        let mut i: usize = 0;
        assert(before.take(0) =~= Seq::empty());
        assert(txs_of(kept@) =~= Seq::empty());
        while i < self.list.len()
            invariant
                i <= self.list@.len(),
                before == txs_of(self.list@),
                self@ == before,
                ids_match(self.ids@, self.list@),
                txid@ == txid_of(tx@),
                ids_match(kept_ids@, kept@),
                txs_of(kept@) == without_mined(before.take(i as int), tx@),
            decreases self.list@.len() - i,
        {
            proof {
                assert(before.take(i + 1).drop_last() =~= before.take(i as int));
                assert(before.take(i + 1).last() == self.list@[i as int]@);
                assert(self.ids@[i as int]@ == txid_of(before[i as int]));
            }
            if !same_text(&self.ids[i], &txid) && !in_conflict(&self.list[i], tx) {
                let ghost was = txs_of(kept@);
                let ghost was_ids = kept_ids@;
                kept.push(self.list[i].clone());
                kept_ids.push(copy_text(&self.ids[i]));
                proof {
                    assert(txs_of(kept@) =~= was.push(before[i as int]));
                    assert forall|j: int| 0 <= j < kept_ids@.len() implies (
                    #[trigger] kept_ids@[j])@ == txid_of(txs_of(kept@)[j]) by {
                        if j < was_ids.len() {
                            assert(was_ids[j]@ == txid_of(was[j]));
                        }
                    }
                }
            }
            i = i + 1;
        }
        proof {
            assert(before.take(i as int) =~= before);
            law_removal_keeps_pool_ok(before, tx@);
        }
        *self = Mempool { list: kept, ids: kept_ids };
    }

    /// Drain every pooled tx that appears in a mined block (and conflicts).
    pub fn remove_mined_txs(&mut self, block: &Block)
        ensures
            final(self)@ == without_all_mined(old(self)@, block@.transactions),
            pool_ok(final(self)@),
    {
        proof {
            use_type_invariant(&*self);
        }
        let ghost before = self@;
        let ghost all = block@.transactions;
        let mut i: usize = 0;
        assert(all.take(0) =~= Seq::empty());
        while i < block.transactions.len()
            invariant
                i <= block.transactions@.len(),
                all == txs_of(block.transactions@),
                all == block@.transactions,
                self@ == without_all_mined(before, all.take(i as int)),
                pool_ok(self@),
            decreases block.transactions@.len() - i,
        {
            self.remove_mined(&block.transactions[i]);
            i = i + 1;
            assert(all.take(i as int).drop_last() =~= all.take(i - 1));
        }
        assert(all.take(i as int) =~= all);
    }

    /// Wire codec: u32 count + count × tx payloads.
    pub fn encode_all(txs: &[&Transaction]) -> (r: Vec<u8>)
        ensures
            r@ == listed(tx_bytes(), tx_refs(txs@)),
    {
        let mut o: Vec<u8> = Vec::new();
        push_tx_refs(&mut o, txs);
        assert(o@ =~= listed(tx_bytes(), tx_refs(txs@)));
        o
    }

    /// Decode a MEMPOOL/TX payload; errors on any count or length that could
    /// not fit MAX_POOL / MAX_MSG.
    pub fn decode_all(d: &[u8]) -> (r: Result<Vec<Transaction>, NetError>)
        ensures
            match payload(counted(tx(), MAX_POOL as nat), d@) {
                Ok(v) => r matches Ok(l) && txs_of(l@) == v,
                Err(e) => r == Err::<Vec<Transaction>, NetError>(e.net()),
            },
    {
        let mut rd: Reader<'_> = Reader::new(d);
        match rd.txs(MAX_POOL) {
            Ok(v) => Ok(v),
            Err(e) => Err(e.to_net()),
        }
    }
}

// ---------------------------------------------------------------------------
// what holds of the pool
// ---------------------------------------------------------------------------

/// Admission keeps the pool in order: bounded, without duplicates and without
/// conflicts.
pub proof fn law_accept_keeps_pool_ok(
    pool: Seq<TxModel>,
    t: TxModel,
    coins: Coins,
    verified: Set<ClaimModel>,
)
    requires
        pool_ok(pool),
    ensures
        accept_outcome(pool, t, coins, verified) matches Ok(next) ==> pool_ok(next),
{
    if accept_outcome(pool, t, coins, verified) is Ok {
        let next = admitted(pool, t);
        let base = if pool.len() >= MAX_POOL {
            pool.drop_first()
        } else {
            pool
        };
        let shift = if pool.len() >= MAX_POOL {
            1int
        } else {
            0
        };
        assert(forall|i: int| 0 <= i < base.len() ==> #[trigger] next[i] == pool[i + shift]);
        assert forall|i: int, j: int| 0 <= i < j < next.len() implies txid_of(#[trigger] next[i])
            != txid_of(#[trigger] next[j]) && !conflict(next[i], next[j]) by {
            assert(next[i] == pool[i + shift]);
            if j < base.len() {
                assert(next[j] == pool[j + shift]);
            } else {
                assert(txid_of(pool[i + shift]) != txid_of(t));
                assert(!conflict(pool[i + shift], t));
            }
        }
    }
}

/// Every transaction is validated before it is admitted: each of its inputs
/// spends an output that exists, under a signature that was found to hold.
pub proof fn law_admitted_is_validated(
    pool: Seq<TxModel>,
    t: TxModel,
    coins: Coins,
    verified: Set<ClaimModel>,
    i: int,
)
    requires
        accept_outcome(pool, t, coins, verified) is Ok,
        0 <= i < t.inputs.len(),
    ensures
        coins.contains_key(input_key(t.inputs[i])),
        verified.contains(
            input_claim(tx_sighash(t), t.inputs[i], coins[input_key(t.inputs[i])]),
        ),
{
    law_spend_is_authorized(coins, t, verified, i);
}

/// What removal leaves are pooled transactions in their order, each of which
/// outlives the mined one; nothing else is dropped.
proof fn lemma_without_mined(pool: Seq<TxModel>, t: TxModel) -> (pick: Seq<int>)
    ensures
        pick.len() == without_mined(pool, t).len(),
        pick.len() <= pool.len(),
        forall|i: int|
            0 <= i < pick.len() ==> 0 <= #[trigger] pick[i] < pool.len() && without_mined(
                pool,
                t,
            )[i] == pool[pick[i]] && outlives(pool[pick[i]], t),
        forall|i: int, j: int| 0 <= i < j < pick.len() ==> #[trigger] pick[i] < #[trigger] pick[j],
        forall|k: int|
            0 <= k < pool.len() && outlives(#[trigger] pool[k], t) ==> pick.contains(k),
    decreases pool.len(),
{
    if pool.len() == 0 {
        Seq::empty()
    } else {
        let front = pool.drop_last();
        let p = lemma_without_mined(front, t);
        let last = pool.len() - 1;
        if outlives(pool.last(), t) {
            let q = p.push(last);
            assert forall|k: int| 0 <= k < pool.len() && outlives(
                #[trigger] pool[k],
                t,
            ) implies q.contains(k) by {
                if k < last {
                    assert(front[k] == pool[k]);
                    let i = choose|i: int| 0 <= i < p.len() && p[i] == k;
                    assert(q[i] == k);
                } else {
                    assert(q[p.len() as int] == k);
                }
            }
            q
        } else {
            assert forall|k: int| 0 <= k < pool.len() && outlives(
                #[trigger] pool[k],
                t,
            ) implies p.contains(k) by {
                assert(front[k] == pool[k]);
            }
            p
        }
    }
}

/// Removal keeps the pool in order.
pub proof fn law_removal_keeps_pool_ok(pool: Seq<TxModel>, t: TxModel)
    requires
        pool_ok(pool),
    ensures
        pool_ok(without_mined(pool, t)),
{
    let pick = lemma_without_mined(pool, t);
    let next = without_mined(pool, t);
    assert forall|i: int, j: int| 0 <= i < j < next.len() implies txid_of(#[trigger] next[i])
        != txid_of(#[trigger] next[j]) && !conflict(next[i], next[j]) by {
        assert(pick[i] < pick[j]);
        assert(next[i] == pool[pick[i]] && next[j] == pool[pick[j]]);
    }
}

/// Once a transaction was mined and removed, neither it nor any transaction
/// that conflicts with it is pooled; all others stay.
pub proof fn law_removal_drops_exactly_the_mined(pool: Seq<TxModel>, t: TxModel, x: TxModel)
    ensures
        without_mined(pool, t).contains(x) <==> pool.contains(x) && outlives(x, t),
{
    let pick = lemma_without_mined(pool, t);
    let next = without_mined(pool, t);
    if next.contains(x) {
        let i = choose|i: int| 0 <= i < next.len() && next[i] == x;
        assert(pool[pick[i]] == x);
    }
    if pool.contains(x) && outlives(x, t) {
        let k = choose|k: int| 0 <= k < pool.len() && pool[k] == x;
        assert(outlives(pool[k], t));
        let i = choose|i: int| 0 <= i < pick.len() && pick[i] == k;
        assert(next[i] == pool[pick[i]]);
    }
}

/// A mined block drains the pool of its transactions and of everything that
/// conflicts with them, and of nothing else.
pub proof fn law_block_drains_pool(pool: Seq<TxModel>, txs: Seq<TxModel>, x: TxModel)
    ensures
        without_all_mined(pool, txs).contains(x) <==> pool.contains(x) && forall|i: int|
            0 <= i < txs.len() ==> outlives(x, #[trigger] txs[i]),
    decreases txs.len(),
{
    if txs.len() > 0 {
        let front = txs.drop_last();
        law_block_drains_pool(pool, front, x);
        law_removal_drops_exactly_the_mined(without_all_mined(pool, front), txs.last(), x);
        if forall|i: int| 0 <= i < front.len() ==> outlives(x, #[trigger] front[i]) {
            assert forall|i: int| 0 <= i < txs.len() && outlives(x, txs.last()) implies outlives(
                x,
                #[trigger] txs[i],
            ) by {
                if i < front.len() {
                    assert(outlives(x, front[i]));
                }
            }
        }
        if forall|i: int| 0 <= i < txs.len() ==> outlives(x, #[trigger] txs[i]) {
            assert(outlives(x, txs[txs.len() - 1]));
            assert forall|i: int| 0 <= i < front.len() implies outlives(x, #[trigger] front[i]) by {
                assert(outlives(x, txs[i]));
            }
        }
    }
}

/// Removal releases the spent outputs: a transaction that may spend is admitted
/// again after it was removed.
pub proof fn law_removed_can_return(
    pool: Seq<TxModel>,
    t: TxModel,
    coins: Coins,
    verified: Set<ClaimModel>,
)
    requires
        spend_verdict(coins, t, verified) is Ok,
    ensures
        accept_outcome(without_mined(pool, t), t, coins, verified) is Ok,
{
    let pick = lemma_without_mined(pool, t);
    let next = without_mined(pool, t);
    assert forall|i: int| 0 <= i < next.len() implies txid_of(#[trigger] next[i]) != txid_of(t)
        && !conflict(next[i], t) by {
        assert(next[i] == pool[pick[i]]);
    }
}

/// An admitted transaction is the newest of the pool; the others keep their
/// order, and only a full pool loses one, its oldest.
pub proof fn law_admission_is_fifo(pool: Seq<TxModel>, t: TxModel)
    requires
        pool.len() <= MAX_POOL,
    ensures
        admitted(pool, t).last() == t,
        admitted(pool, t).drop_last() == (if pool.len() < MAX_POOL {
            pool
        } else {
            pool.drop_first()
        }),
        admitted(pool, t).len() <= MAX_POOL,
{
    if pool.len() < MAX_POOL {
        assert(admitted(pool, t).drop_last() =~= pool);
    } else {
        assert(admitted(pool, t).drop_last() =~= pool.drop_first());
    }
}

} // verus!
