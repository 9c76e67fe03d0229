//! What the pool holds after an offer, a mined block and a change of branch,
//! said of the transactions themselves.
use vstd::prelude::*;

use crate::block::{behind_coinbase, block_hash, BlockModel};
use crate::chain::{input_key, spend_verdict, Coins};
use crate::fork::lemma_on_longest;
use crate::hashing::{hex_of, lemma_hex_injective, sha256d_of};
use crate::mempool::{
    accept_outcome, conflict, conflicts_with, outlives, pooled, without_all_mined, without_mined,
    MempoolError,
};
use crate::node::{
    admissions, holds_hash, incoming_outcome, offered, on_longest, orphaned_txs, taken_up, winner,
    NodeModel,
};
use crate::sig::ClaimModel;
use crate::tx::{tx_preimage, txid_of, TxModel};

verus! {

/// Whether two transactions have nothing in common: their identifiers differ,
/// and no output is named by an input of both.
pub open spec fn apart(a: TxModel, b: TxModel) -> bool {
    hex_of(sha256d_of(tx_preimage(a))) != hex_of(sha256d_of(tx_preimage(b))) && !shares(a, b)
}

/// Whether some output is named by an input of both transactions.
pub open spec fn shares(a: TxModel, b: TxModel) -> bool {
    exists|i: int, j: int|
        0 <= i < a.inputs.len() && 0 <= j < b.inputs.len() && (#[trigger] a.inputs[i]).prev_txid
            == (#[trigger] b.inputs[j]).prev_txid && a.inputs[i].vout == b.inputs[j].vout
}

proof fn lemma_shares(a: TxModel, b: TxModel)
    ensures
        conflict(a, b) == shares(a, b),
        shares(a, b) == shares(b, a),
        outlives(a, b) == apart(a, b),
{
    if conflict(a, b) {
        let (i, j) = choose|i: int, j: int|
            0 <= i < a.inputs.len() && 0 <= j < b.inputs.len() && input_key(#[trigger] a.inputs[i])
                == input_key(#[trigger] b.inputs[j]);
        lemma_hex_injective(a.inputs[i].prev_txid, b.inputs[j].prev_txid);
        assert(a.inputs[i].prev_txid == b.inputs[j].prev_txid);
    }
    if shares(a, b) {
        let (i, j) = choose|i: int, j: int|
            0 <= i < a.inputs.len() && 0 <= j < b.inputs.len() && (
            #[trigger] a.inputs[i]).prev_txid == (#[trigger] b.inputs[j]).prev_txid
                && a.inputs[i].vout == b.inputs[j].vout;
        assert(input_key(a.inputs[i]) == input_key(b.inputs[j]));
        assert(b.inputs[j].prev_txid == a.inputs[i].prev_txid);
    }
    if shares(b, a) {
        let (i, j) = choose|i: int, j: int|
            0 <= i < b.inputs.len() && 0 <= j < a.inputs.len() && (
            #[trigger] b.inputs[i]).prev_txid == (#[trigger] a.inputs[j]).prev_txid
                && b.inputs[i].vout == a.inputs[j].vout;
        assert(a.inputs[j].prev_txid == b.inputs[i].prev_txid);
    }
}

// ---------------------------------------------------------------------------
// offers
// ---------------------------------------------------------------------------

/// What an offer to the pool comes to: a transaction that may not spend is
/// invalid, one whose identifier is pooled is a duplicate, one that names an
/// output which a pooled one names conflicts, and any other is admitted.
pub proof fn law_offer_is_judged(
    pool: Seq<TxModel>,
    t: TxModel,
    coins: Coins,
    verified: Set<ClaimModel>,
)
    ensures
        ({
            let known = exists|i: int|
                0 <= i < pool.len() && hex_of(sha256d_of(tx_preimage(#[trigger] pool[i])))
                    == hex_of(sha256d_of(tx_preimage(t)));
            let rival = exists|i: int| 0 <= i < pool.len() && shares(#[trigger] pool[i], t);
            match spend_verdict(coins, t, verified) {
                Err(e) => accept_outcome(pool, t, coins, verified) == Err::<
                    Seq<TxModel>,
                    MempoolError,
                >(MempoolError::Invalid(e)),
                Ok(_) => if known {
                    accept_outcome(pool, t, coins, verified) == Err::<Seq<TxModel>, MempoolError>(
                        MempoolError::Duplicate,
                    )
                } else if rival {
                    accept_outcome(pool, t, coins, verified) == Err::<Seq<TxModel>, MempoolError>(
                        MempoolError::Conflicting,
                    )
                } else {
                    accept_outcome(pool, t, coins, verified) is Ok
                },
            }
        }),
{
    assert forall|i: int| 0 <= i < pool.len() implies conflict(#[trigger] pool[i], t) == shares(
        pool[i],
        t,
    ) by {
        lemma_shares(pool[i], t);
    }
    if pooled(pool, txid_of(t)) {
        let i = choose|i: int| 0 <= i < pool.len() && txid_of(#[trigger] pool[i]) == txid_of(t);
        assert(hex_of(sha256d_of(tx_preimage(pool[i]))) == txid_of(t));
    }
    if exists|i: int|
        0 <= i < pool.len() && hex_of(sha256d_of(tx_preimage(#[trigger] pool[i]))) == hex_of(
            sha256d_of(tx_preimage(t)),
        ) {
        let i = choose|i: int|
            0 <= i < pool.len() && hex_of(sha256d_of(tx_preimage(#[trigger] pool[i]))) == hex_of(
                sha256d_of(tx_preimage(t)),
            );
        assert(txid_of(pool[i]) == txid_of(t));
    }
    if conflicts_with(pool, t) {
        let i = choose|i: int| 0 <= i < pool.len() && conflict(#[trigger] pool[i], t);
        assert(shares(pool[i], t));
    }
    if exists|i: int| 0 <= i < pool.len() && shares(#[trigger] pool[i], t) {
        let i = choose|i: int| 0 <= i < pool.len() && shares(#[trigger] pool[i], t);
        assert(conflict(pool[i], t));
    }
}

/// Admission below the cap puts the transaction at the end of the pool and
/// leaves every other one where it was.
pub proof fn law_admission_keeps_the_pool(
    pool: Seq<TxModel>,
    t: TxModel,
    coins: Coins,
    verified: Set<ClaimModel>,
)
    requires
        accept_outcome(pool, t, coins, verified) is Ok,
        pool.len() < 4096,
    ensures
        ({
            let next = accept_outcome(pool, t, coins, verified)->Ok_0;
            &&& next.len() == pool.len() + 1
            &&& next[pool.len() as int] == t
            &&& forall|i: int| 0 <= i < pool.len() ==> #[trigger] next[i] == pool[i]
        }),
{
}

/// Admission at the cap drops the oldest transaction, and no other.
pub proof fn law_full_pool_drops_its_oldest(
    pool: Seq<TxModel>,
    t: TxModel,
    coins: Coins,
    verified: Set<ClaimModel>,
)
    requires
        accept_outcome(pool, t, coins, verified) is Ok,
        pool.len() == 4096,
    ensures
        ({
            let next = accept_outcome(pool, t, coins, verified)->Ok_0;
            &&& next.len() == 4096
            &&& next[4095] == t
            &&& forall|i: int| 0 <= i < 4095 ==> #[trigger] next[i] == pool[i + 1]
        }),
{
}

/// Offering a list is offering each of its transactions in turn, those behind a
/// refused one too; the count grows by one with each that is admitted.
pub proof fn law_list_is_offered_in_turn(
    pool: Seq<TxModel>,
    txs: Seq<TxModel>,
    t: TxModel,
    coins: Coins,
    verified: Set<ClaimModel>,
)
    ensures
        offered(pool, Seq::empty(), coins, verified) == pool,
        admissions(pool, Seq::empty(), coins, verified) == 0,
        match accept_outcome(offered(pool, txs, coins, verified), t, coins, verified) {
            Ok(next) => {
                &&& offered(pool, txs.push(t), coins, verified) == next
                &&& admissions(pool, txs.push(t), coins, verified) == admissions(
                    pool,
                    txs,
                    coins,
                    verified,
                ) + 1
            },
            Err(_) => {
                &&& offered(pool, txs.push(t), coins, verified) == offered(
                    pool,
                    txs,
                    coins,
                    verified,
                )
                &&& admissions(pool, txs.push(t), coins, verified) == admissions(
                    pool,
                    txs,
                    coins,
                    verified,
                )
            },
        },
{
    assert(txs.push(t).drop_last() =~= txs);
}

/// What is in the pool after a list was offered that the pool has room for:
/// what was in it, in its order, and behind that transactions of the list.
pub proof fn law_offering_keeps_the_pool(
    pool: Seq<TxModel>,
    txs: Seq<TxModel>,
    coins: Coins,
    verified: Set<ClaimModel>,
)
    requires
        pool.len() + txs.len() <= 4096,
    ensures
        ({
            let next = offered(pool, txs, coins, verified);
            &&& pool.len() <= next.len() <= pool.len() + txs.len()
            &&& forall|i: int| 0 <= i < pool.len() ==> #[trigger] next[i] == pool[i]
            &&& forall|i: int| pool.len() <= i < next.len() ==> txs.contains(#[trigger] next[i])
        }),
    decreases txs.len(),
{
    if txs.len() > 0 {
        let front = txs.drop_last();
        let was = offered(pool, front, coins, verified);
        let next = offered(pool, txs, coins, verified);
        law_offering_keeps_the_pool(pool, front, coins, verified);
        assert forall|i: int| pool.len() <= i < next.len() implies txs.contains(
            #[trigger] next[i],
        ) by {
            if i < was.len() {
                assert(front.contains(was[i]));
                let k = choose|k: int| 0 <= k < front.len() && front[k] == was[i];
                assert(txs[k] == next[i]);
            } else {
                assert(txs[txs.len() - 1] == next[i]);
            }
        }
    }
}

/// Where a transaction of a list stands once the list was offered, if it may
/// spend, was not pooled, and has nothing in common with any other.
proof fn lemma_offered_stays(
    pool: Seq<TxModel>,
    txs: Seq<TxModel>,
    coins: Coins,
    verified: Set<ClaimModel>,
    t: TxModel,
) -> (q: int)
    requires
        pool.len() <= 4096,
        txs.len() <= 4096,
        !pool.contains(t),
        spend_verdict(coins, t, verified) is Ok,
        forall|i: int| 0 <= i < pool.len() && #[trigger] pool[i] != t ==> apart(pool[i], t),
        forall|i: int| 0 <= i < txs.len() && #[trigger] txs[i] != t ==> apart(txs[i], t),
    ensures
        ({
            let next = offered(pool, txs, coins, verified);
            &&& next.len() <= 4096
            &&& forall|i: int|
                0 <= i < next.len() ==> pool.contains(#[trigger] next[i]) || txs.contains(next[i])
            &&& txs.contains(t) ==> 0 <= q < next.len() && next[q] == t && next.len() - q
                <= txs.len()
        }),
    decreases txs.len(),
{
    if txs.len() == 0 {
        assert forall|i: int| 0 <= i < pool.len() implies pool.contains(#[trigger] pool[i]) by {}
        0
    } else {
        let front = txs.drop_last();
        let u = txs.last();
        let was = offered(pool, front, coins, verified);
        let next = offered(pool, txs, coins, verified);
        assert forall|i: int| 0 <= i < front.len() && #[trigger] front[i] != t implies apart(
            front[i],
            t,
        ) by {
            assert(txs[i] == front[i]);
        }
        let q = lemma_offered_stays(pool, front, coins, verified, t);
        assert forall|x: TxModel| #[trigger] front.contains(x) implies txs.contains(x) by {
            let i = choose|i: int| 0 <= i < front.len() && front[i] == x;
            assert(txs[i] == x);
        }
        assert(txs[txs.len() - 1] == u);
        assert forall|i: int| 0 <= i < next.len() implies pool.contains(#[trigger] next[i])
            || txs.contains(next[i]) by {
            if next.len() == was.len() && next[i] == u {
            } else if i < was.len() && next[i] == was[i] {
            } else if i + 1 < was.len() {
                assert(next[i] == was[i + 1]);
            }
        }
        let admitted = accept_outcome(was, u, coins, verified) is Ok;
        if front.contains(t) {
            if admitted && was.len() == 4096 {
                assert(next[q - 1] == t);
                q - 1
            } else {
                assert(next[q] == t);
                q
            }
        } else if u == t {
            assert forall|i: int| 0 <= i < was.len() implies txid_of(#[trigger] was[i]) != txid_of(t)
                && !conflict(was[i], t) by {
                assert(was[i] != t);
                lemma_shares(was[i], t);
                if pool.contains(was[i]) {
                    let k = choose|k: int| 0 <= k < pool.len() && pool[k] == was[i];
                    assert(pool[k] == was[i]);
                } else {
                    let k = choose|k: int| 0 <= k < front.len() && front[k] == was[i];
                    assert(txs[k] == was[i]);
                }
            }
            assert(next.last() == t);
            next.len() - 1
        } else {
            if txs.contains(t) {
                let i = choose|i: int| 0 <= i < txs.len() && txs[i] == t;
                assert(front[i] == t);
            }
            0
        }
    }
}

/// A transaction of a list is pooled afterwards, if it may spend and has nothing
/// in common with any other of the pool or the list, and the list is no longer
/// than the cap. One that was pooled before stays if there is room for the
/// whole list.
pub proof fn law_offered_is_pooled(
    pool: Seq<TxModel>,
    txs: Seq<TxModel>,
    coins: Coins,
    verified: Set<ClaimModel>,
    p: int,
)
    requires
        pool.len() <= 4096,
        txs.len() <= 4096,
        0 <= p < txs.len(),
        pool.contains(txs[p]) ==> pool.len() + txs.len() <= 4096,
        spend_verdict(coins, txs[p], verified) is Ok,
        forall|i: int|
            0 <= i < pool.len() && #[trigger] pool[i] != txs[p] ==> apart(pool[i], txs[p]),
        forall|i: int| 0 <= i < txs.len() && #[trigger] txs[i] != txs[p] ==> apart(txs[i], txs[p]),
    ensures
        offered(pool, txs, coins, verified).contains(txs[p]),
{
    let next = offered(pool, txs, coins, verified);
    if pool.contains(txs[p]) {
        law_offering_keeps_the_pool(pool, txs, coins, verified);
        let i = choose|i: int| 0 <= i < pool.len() && pool[i] == txs[p];
        assert(next[i] == txs[p]);
    } else {
        let q = lemma_offered_stays(pool, txs, coins, verified, txs[p]);
        assert(txs.contains(txs[p]));
        assert(next[q] == txs[p]);
    }
}

// ---------------------------------------------------------------------------
// mined blocks
// ---------------------------------------------------------------------------

proof fn lemma_filter_twice(
    s: Seq<TxModel>,
    p: spec_fn(TxModel) -> bool,
    q: spec_fn(TxModel) -> bool,
    both: spec_fn(TxModel) -> bool,
)
    requires
        forall|x: TxModel| #[trigger] both(x) == (p(x) && q(x)),
    ensures
        s.filter(p).filter(q) == s.filter(both),
    decreases s.len(),
{
    reveal(Seq::filter);
    if s.len() > 0 {
        lemma_filter_twice(s.drop_last(), p, q, both);
        let f = s.drop_last().filter(p);
        assert(both(s.last()) == (p(s.last()) && q(s.last())));
        assert(f.push(s.last()).drop_last() =~= f);
    }
}

/// Removing a mined transaction keeps exactly the transactions that have nothing
/// in common with it, in their order.
pub proof fn law_removal_keeps_the_others(pool: Seq<TxModel>, t: TxModel)
    ensures
        without_mined(pool, t) == pool.filter(|x: TxModel| apart(x, t)),
    decreases pool.len(),
{
    reveal(Seq::filter);
    if pool.len() > 0 {
        law_removal_keeps_the_others(pool.drop_last(), t);
        lemma_shares(pool.last(), t);
    } else {
        assert(pool =~= Seq::empty());
    }
}

/// A mined block leaves exactly the pooled transactions that have nothing in
/// common with any of its transactions, in their order.
pub proof fn law_block_leaves_the_others(pool: Seq<TxModel>, txs: Seq<TxModel>)
    ensures
        without_all_mined(pool, txs) == pool.filter(
            |x: TxModel| forall|i: int| 0 <= i < txs.len() ==> apart(x, #[trigger] txs[i]),
        ),
    decreases txs.len(),
{
    let both = |x: TxModel| forall|i: int| 0 <= i < txs.len() ==> apart(x, #[trigger] txs[i]);
    if txs.len() == 0 {
        lemma_filter_all(pool, both);
    } else {
        let front = txs.drop_last();
        let p = |x: TxModel| forall|i: int| 0 <= i < front.len() ==> apart(x, #[trigger] front[i]);
        let q = |x: TxModel| apart(x, txs.last());
        law_block_leaves_the_others(pool, front);
        law_removal_keeps_the_others(without_all_mined(pool, front), txs.last());
        assert forall|x: TxModel| #[trigger] both(x) == (p(x) && q(x)) by {
            if both(x) {
                assert(apart(x, txs[txs.len() - 1]));
                assert forall|i: int| 0 <= i < front.len() implies apart(x, #[trigger] front[i]) by {
                    assert(apart(x, txs[i]));
                }
            }
            if p(x) && q(x) {
                assert forall|i: int| 0 <= i < txs.len() implies apart(x, #[trigger] txs[i]) by {
                    if i < front.len() {
                        assert(apart(x, front[i]));
                    }
                }
            }
        }
        lemma_filter_twice(pool, p, q, both);
    }
}

proof fn lemma_filter_all(s: Seq<TxModel>, p: spec_fn(TxModel) -> bool)
    requires
        forall|x: TxModel| #[trigger] p(x),
    ensures
        s.filter(p) == s,
    decreases s.len(),
{
    reveal(Seq::filter);
    if s.len() > 0 {
        lemma_filter_all(s.drop_last(), p);
        assert(p(s.last()));
        assert(s.drop_last().push(s.last()) =~= s);
    }
}

// ---------------------------------------------------------------------------
// orphaned blocks
// ---------------------------------------------------------------------------

/// Whether a block is left behind by a branch: it is no block of height zero,
/// and no block of the branch has its hash.
pub open spec fn left_behind(b: BlockModel, branch: Seq<BlockModel>) -> bool {
    b.height > 0 && forall|i: int|
        0 <= i < branch.len() ==> block_hash(#[trigger] branch[i]) != block_hash(b)
}

/// All but the first transaction.
pub open spec fn behind_first(txs: Seq<TxModel>) -> Seq<TxModel> {
    if txs.len() == 0 {
        Seq::empty()
    } else {
        txs.skip(1)
    }
}

/// Every transaction behind the first of the stored blocks that a branch leaves
/// behind, block for block in the order of the store.
pub open spec fn spends_left_behind(store: Seq<BlockModel>, branch: Seq<BlockModel>) -> Seq<
    TxModel,
> {
    store.filter(|b: BlockModel| left_behind(b, branch)).map_values(
        |b: BlockModel| behind_first(b.transactions),
    ).flatten()
}

/// The orphaned spends are, block for block in the order of the store, every
/// transaction behind the first of the blocks that the branch leaves behind.
pub proof fn law_orphans_are_all_spends_left_behind(
    store: Seq<BlockModel>,
    branch: Seq<BlockModel>,
)
    ensures
        orphaned_txs(store, branch) == spends_left_behind(store, branch),
    decreases store.len(),
{
    reveal(Seq::filter);
    let p = |b: BlockModel| left_behind(b, branch);
    let f = |b: BlockModel| behind_first(b.transactions);
    if store.len() > 0 {
        let front = store.drop_last();
        let b = store.last();
        law_orphans_are_all_spends_left_behind(front, branch);
        if holds_hash(branch, block_hash(b)) {
            let i = choose|i: int|
                0 <= i < branch.len() && block_hash(#[trigger] branch[i]) == block_hash(b);
            assert(!p(b));
        }
        if p(b) {
            let kept = front.filter(p);
            assert(kept.push(b).map_values(f) =~= kept.map_values(f).push(f(b)));
            kept.map_values(f).lemma_flatten_push(f(b));
            assert(behind_first(b.transactions) =~= behind_coinbase(b.transactions));
        }
    } else {
        assert(store.filter(p).map_values(f) =~= Seq::empty());
        assert(orphaned_txs(store, branch) =~= Seq::empty());
    }
}

/// Every transaction behind the first of a block that is left behind is among
/// the orphaned spends.
proof fn lemma_orphan_is_collected(
    store: Seq<BlockModel>,
    branch: Seq<BlockModel>,
    q: int,
    j: int,
)
    requires
        0 <= q < store.len(),
        left_behind(store[q], branch),
        1 <= j < store[q].transactions.len(),
    ensures
        orphaned_txs(store, branch).contains(store[q].transactions[j]),
    decreases store.len(),
{
    let front = store.drop_last();
    let was = orphaned_txs(front, branch);
    let all = orphaned_txs(store, branch);
    let t = store[q].transactions[j];
    if q < front.len() {
        assert(front[q] == store[q]);
        lemma_orphan_is_collected(front, branch, q, j);
        let i = choose|i: int| 0 <= i < was.len() && was[i] == t;
        assert(all[i] == t);
    } else {
        if holds_hash(branch, block_hash(store[q])) {
            let i = choose|i: int|
                0 <= i < branch.len() && block_hash(#[trigger] branch[i]) == block_hash(store[q]);
            assert(block_hash(branch[i]) != block_hash(store[q]));
        }
        assert(all[was.len() + j - 1] == t);
    }
}

/// Every orphaned spend stands behind the first transaction of a block that is
/// left behind.
proof fn lemma_orphan_comes_from(store: Seq<BlockModel>, branch: Seq<BlockModel>, i: int) -> (r: (
    int,
    int,
))
    requires
        0 <= i < orphaned_txs(store, branch).len(),
    ensures
        0 <= r.0 < store.len(),
        left_behind(store[r.0], branch),
        1 <= r.1 < store[r.0].transactions.len(),
        orphaned_txs(store, branch)[i] == store[r.0].transactions[r.1],
    decreases store.len(),
{
    let front = store.drop_last();
    let was = orphaned_txs(front, branch);
    let b = store.last();
    if i < was.len() {
        let r = lemma_orphan_comes_from(front, branch, i);
        assert(front[r.0] == store[r.0]);
        r
    } else {
        assert(left_behind(b, branch)) by {
            assert forall|k: int| 0 <= k < branch.len() implies block_hash(#[trigger] branch[k])
                != block_hash(b) by {
                if block_hash(branch[k]) == block_hash(b) {
                    assert(holds_hash(branch, block_hash(b)));
                }
            }
        }
        (store.len() - 1, i - was.len() + 1)
    }
}

/// No spend is lost by a change of branch: every transaction behind the first
/// of a stored block that is not on the winning branch is pooled afterwards, if
/// it may spend from the new chain's outputs, has nothing in common with another
/// pooled or orphaned transaction, and no more spends are orphaned than the pool
/// holds. One that is pooled already stays if the pool has room for them all.
pub proof fn law_orphaned_spend_returns(n: NodeModel, verified: Set<ClaimModel>, q: int, j: int)
    requires
        winner(n, verified) is Some,
        0 <= q < n.blocks.len(),
        left_behind(n.blocks[q], on_longest(n, verified).blocks),
        1 <= j < n.blocks[q].transactions.len(),
        spend_verdict(
            on_longest(n, verified).chain.utxos,
            n.blocks[q].transactions[j],
            verified,
        ) is Ok,
        forall|i: int|
            0 <= i < n.pool.len() && #[trigger] n.pool[i] != n.blocks[q].transactions[j] ==> apart(
                n.pool[i],
                n.blocks[q].transactions[j],
            ),
        forall|a: int, b: int|
            0 <= a < n.blocks.len() && left_behind(
                n.blocks[a],
                on_longest(n, verified).blocks,
            ) && 1 <= b < n.blocks[a].transactions.len()
                && #[trigger] n.blocks[a].transactions[b] != n.blocks[q].transactions[j] ==> apart(
                n.blocks[a].transactions[b],
                n.blocks[q].transactions[j],
            ),
        n.pool.len() <= 4096,
        spends_left_behind(n.blocks, on_longest(n, verified).blocks).len() <= 4096,
        n.pool.contains(n.blocks[q].transactions[j]) ==> n.pool.len() + spends_left_behind(
            n.blocks,
            on_longest(n, verified).blocks,
        ).len() <= 4096,
    ensures
        on_longest(n, verified).pool.contains(n.blocks[q].transactions[j]),
{
    let next = on_longest(n, verified);
    let branch = next.blocks;
    let txs = orphaned_txs(n.blocks, branch);
    let t = n.blocks[q].transactions[j];
    lemma_on_longest(n, verified);
    lemma_orphan_is_collected(n.blocks, branch, q, j);
    law_orphans_are_all_spends_left_behind(n.blocks, branch);
    let p = choose|p: int| 0 <= p < txs.len() && txs[p] == t;
    assert forall|i: int| 0 <= i < txs.len() && #[trigger] txs[i] != txs[p] implies apart(
        txs[i],
        txs[p],
    ) by {
        let r = lemma_orphan_comes_from(n.blocks, branch, i);
        assert(n.blocks[r.0].transactions[r.1] != t);
    }
    law_offered_is_pooled(n.pool, txs, next.chain.utxos, verified, p);
}

/// The same of an incoming block that brings a change of branch, over what is
/// stored once the block is taken up.
pub proof fn law_incoming_block_returns_orphaned_spends(
    n: NodeModel,
    b: BlockModel,
    verified: Set<ClaimModel>,
    q: int,
    j: int,
)
    requires
        taken_up(n, b, verified) is Ok,
        ({
            let m = taken_up(n, b, verified)->Ok_0;
            let next = incoming_outcome(n, b, verified)->Ok_0;
            let t = m.blocks[q].transactions[j];
            &&& winner(m, verified) is Some
            &&& 0 <= q < m.blocks.len()
            &&& left_behind(m.blocks[q], next.blocks)
            &&& 1 <= j < m.blocks[q].transactions.len()
            &&& spend_verdict(next.chain.utxos, t, verified) is Ok
            &&& forall|i: int| 0 <= i < m.pool.len() && #[trigger] m.pool[i] != t ==> apart(m.pool[i], t)
            &&& forall|x: int, y: int|
                0 <= x < m.blocks.len() && left_behind(m.blocks[x], next.blocks) && 1 <= y
                    < m.blocks[x].transactions.len() && #[trigger] m.blocks[x].transactions[y] != t
                    ==> apart(m.blocks[x].transactions[y], t)
            &&& m.pool.len() <= 4096
            &&& spends_left_behind(m.blocks, next.blocks).len() <= 4096
            &&& m.pool.contains(t) ==> m.pool.len() + spends_left_behind(
                m.blocks,
                next.blocks,
            ).len() <= 4096
        }),
    ensures
        incoming_outcome(n, b, verified) is Ok,
        incoming_outcome(n, b, verified)->Ok_0.pool.contains(
            taken_up(n, b, verified)->Ok_0.blocks[q].transactions[j],
        ),
{
    law_orphaned_spend_returns(taken_up(n, b, verified)->Ok_0, verified, q, j);
}

/// What a change of branch leaves in a pool with room: what was pooled, in its
/// order, and behind that only spends of the blocks left behind.
pub proof fn law_reorg_pool_is_old_and_orphaned(
    n: NodeModel,
    verified: Set<ClaimModel>,
    i: int,
) -> (r: (int, int))
    requires
        winner(n, verified) is Some,
        n.pool.len() + spends_left_behind(n.blocks, on_longest(n, verified).blocks).len() <= 4096,
        0 <= i < on_longest(n, verified).pool.len(),
    ensures
        n.pool.len() <= on_longest(n, verified).pool.len(),
        i < n.pool.len() ==> on_longest(n, verified).pool[i] == n.pool[i],
        i >= n.pool.len() ==> {
            &&& 0 <= r.0 < n.blocks.len()
            &&& left_behind(n.blocks[r.0], on_longest(n, verified).blocks)
            &&& 1 <= r.1 < n.blocks[r.0].transactions.len()
            &&& on_longest(n, verified).pool[i] == n.blocks[r.0].transactions[r.1]
        },
{
    let next = on_longest(n, verified);
    let txs = orphaned_txs(n.blocks, next.blocks);
    lemma_on_longest(n, verified);
    law_orphans_are_all_spends_left_behind(n.blocks, next.blocks);
    law_offering_keeps_the_pool(n.pool, txs, next.chain.utxos, verified);
    if i >= n.pool.len() {
        assert(txs.contains(next.pool[i]));
        let p = choose|p: int| 0 <= p < txs.len() && txs[p] == next.pool[i];
        lemma_orphan_comes_from(n.blocks, next.blocks, p)
    } else {
        (0, 0)
    }
}

// ---------------------------------------------------------------------------
// lookups
// ---------------------------------------------------------------------------

/// An identifier is pooled exactly if a pooled transaction has it.
pub proof fn law_identifier_is_found(pool: Seq<TxModel>, id: Seq<char>)
    ensures
        pooled(pool, id) <==> exists|i: int|
            0 <= i < pool.len() && hex_of(sha256d_of(tx_preimage(#[trigger] pool[i]))) == id,
{
    if pooled(pool, id) {
        let i = choose|i: int| 0 <= i < pool.len() && txid_of(#[trigger] pool[i]) == id;
        assert(hex_of(sha256d_of(tx_preimage(pool[i]))) == id);
    }
    if exists|i: int|
        0 <= i < pool.len() && hex_of(sha256d_of(tx_preimage(#[trigger] pool[i]))) == id {
        let i = choose|i: int|
            0 <= i < pool.len() && hex_of(sha256d_of(tx_preimage(#[trigger] pool[i]))) == id;
        assert(txid_of(pool[i]) == id);
    }
}

} // verus!
