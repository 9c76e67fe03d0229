//! How a node takes blocks up and mines its own, said of the blocks and of the
//! fields of the node.
use vstd::prelude::*;

use crate::block::{block_hash, has_work, with_nonce, BlockModel};
use crate::chain::{block_outcome, empty_state, NodeError};
use crate::fork::{law_branch_is_found, lemma_nothing_above, linked, none_above};
use crate::ledger::{law_tip_carries_work, replay};
use crate::node::{
    ancestry, block_named, can_win, commit_outcome, first_nonce, holds_hash, incoming_outcome,
    known_branch, mine_outcome, on_longest, stashed, taken_up, tallest_of, template, winner,
    MineFault, NodeModel,
};
use crate::pooling::{apart, law_block_leaves_the_others};
use crate::sig::ClaimModel;
use crate::tx::TxModel;

verus! {

// ---------------------------------------------------------------------------
// the store
// ---------------------------------------------------------------------------

/// A hash names the first stored block that has it, and none if no stored block
/// has it.
pub proof fn law_hash_names_first_block(store: Seq<BlockModel>, hash: Seq<char>, i: int)
    requires
        0 <= i < store.len(),
        forall|j: int| 0 <= j < i ==> block_hash(#[trigger] store[j]) != hash,
    ensures
        block_hash(store[i]) == hash ==> block_named(store, hash) == Some(store[i]),
        block_hash(store[i]) != hash && i == store.len() - 1 ==> block_named(store, hash) is None,
    decreases store.len(),
{
    if i > 0 {
        let rest = store.drop_first();
        assert(block_hash(store[0]) != hash);
        assert forall|j: int| 0 <= j < i - 1 implies block_hash(#[trigger] rest[j]) != hash by {
            assert(rest[j] == store[j + 1]);
        }
        law_hash_names_first_block(rest, hash, i - 1);
        assert(rest[i - 1] == store[i]);
    } else if store.len() == 1 {
        assert(store.drop_first().len() == 0);
        assert(block_named(store.drop_first(), hash) is None);
    }
}

proof fn lemma_named(store: Seq<BlockModel>, hash: Seq<char>, b: BlockModel)
    requires
        store.contains(b),
        block_hash(b) == hash,
        forall|q: int|
            0 <= q < store.len() && block_hash(#[trigger] store[q]) == hash ==> store[q] == b,
    ensures
        block_named(store, hash) == Some(b),
    decreases store.len(),
{
    if block_hash(store[0]) != hash {
        let rest = store.drop_first();
        let i = choose|i: int| 0 <= i < store.len() && store[i] == b;
        assert(rest[i - 1] == b);
        assert forall|q: int|
            0 <= q < rest.len() && block_hash(#[trigger] rest[q]) == hash implies rest[q] == b by {
            assert(rest[q] == store[q + 1]);
        }
        lemma_named(rest, hash, b);
    }
}

proof fn lemma_linked_ancestry(store: Seq<BlockModel>, s: Seq<BlockModel>)
    requires
        linked(s),
        forall|i: int| 0 < i < s.len() ==> (#[trigger] s[i]).prev_hash.len() > 0,
        forall|i: int| 0 <= i < s.len() - 1 ==> store.contains(#[trigger] s[i]),
        forall|i: int, q: int|
            0 <= i < s.len() - 1 && 0 <= q < store.len() && block_hash(#[trigger] store[q])
                == block_hash(#[trigger] s[i]) ==> store[q] == s[i],
    ensures
        ancestry(store, s.last(), s.len()) == Some(s),
    decreases s.len(),
{
    if s.len() == 1 {
        assert(s =~= seq![s.last()]);
    } else {
        let front = s.drop_last();
        let p = front.last();
        assert(p == s[s.len() - 2]);
        assert(s.last().prev_hash == block_hash(p));
        assert forall|i: int, j: int| 0 <= i && j == i + 1 && j < front.len() implies (
        #[trigger] front[j]).prev_hash == block_hash(#[trigger] front[i]) by {
            assert(front[j] == s[j] && front[i] == s[i]);
        }
        assert forall|i: int| 0 < i < front.len() implies (
        #[trigger] front[i]).prev_hash.len() > 0 by {
            assert(front[i] == s[i]);
        }
        assert forall|i: int| 0 <= i < front.len() - 1 implies store.contains(
            #[trigger] front[i],
        ) by {
            assert(front[i] == s[i]);
        }
        assert forall|i: int, q: int|
            0 <= i < front.len() - 1 && 0 <= q < store.len() && block_hash(#[trigger] store[q])
                == block_hash(#[trigger] front[i]) implies store[q] == front[i] by {
            assert(front[i] == s[i]);
        }
        lemma_linked_ancestry(store, front);
        assert(store.contains(s[s.len() - 2]));
        assert forall|q: int|
            0 <= q < store.len() && block_hash(#[trigger] store[q])
                == s.last().prev_hash implies store[q] == p by {
            assert(block_hash(store[q]) == block_hash(s[s.len() - 2]));
        }
        lemma_named(store, s.last().prev_hash, p);
        assert(front.push(s.last()) =~= s);
    }
}

/// A branch is known once every block of it but the last is stored: linked
/// blocks whose hashes name them in the store are found, all of them, from the
/// last back to the first.
pub proof fn law_linked_branch_is_known(store: Seq<BlockModel>, s: Seq<BlockModel>)
    requires
        linked(s),
        forall|i: int| 0 < i < s.len() ==> (#[trigger] s[i]).prev_hash.len() > 0,
        forall|i: int| 0 <= i < s.len() - 1 ==> store.contains(#[trigger] s[i]),
        forall|i: int, q: int|
            0 <= i < s.len() - 1 && 0 <= q < store.len() && block_hash(#[trigger] store[q])
                == block_hash(#[trigger] s[i]) ==> store[q] == s[i],
    ensures
        known_branch(store, s.last()) == Some(s),
{
    lemma_linked_ancestry(store, s);
    law_branch_is_found(store, s.last(), s.len());
}

/// A block whose parent no stored block is has no known branch, unless it names
/// no parent: then it is a branch by itself.
pub proof fn law_missing_parent_breaks_branch(store: Seq<BlockModel>, b: BlockModel)
    ensures
        b.prev_hash.len() == 0 ==> known_branch(store, b) == Some(seq![b]),
        b.prev_hash.len() > 0 && (forall|i: int|
            0 <= i < store.len() ==> block_hash(#[trigger] store[i]) != b.prev_hash)
            ==> known_branch(store, b) is None,
{
    if forall|i: int| 0 <= i < store.len() ==> block_hash(#[trigger] store[i]) != b.prev_hash {
        if store.len() > 0 {
            assert(block_hash(store[store.len() - 1]) != b.prev_hash);
            law_hash_names_first_block(store, b.prev_hash, store.len() - 1);
        }
    }
}

/// A linked branch that replays from the start can win.
pub proof fn law_replaying_branch_can_win(
    n: NodeModel,
    s: Seq<BlockModel>,
    verified: Set<ClaimModel>,
)
    requires
        linked(s),
        forall|i: int| 0 < i < s.len() ==> (#[trigger] s[i]).prev_hash.len() > 0,
        forall|i: int| 0 <= i < s.len() - 1 ==> n.blocks.contains(#[trigger] s[i]),
        forall|i: int, q: int|
            0 <= i < s.len() - 1 && 0 <= q < n.blocks.len() && block_hash(#[trigger] n.blocks[q])
                == block_hash(#[trigger] s[i]) ==> n.blocks[q] == s[i],
    ensures
        can_win(n, s.last(), verified) <==> replay(
            empty_state(n.chain.difficulty),
            s,
            n.reward,
            verified,
        ) is Ok,
{
    law_linked_branch_is_known(n.blocks, s);
}

// ---------------------------------------------------------------------------
// incoming blocks
// ---------------------------------------------------------------------------

/// A block is stored once: one whose hash is stored changes nothing, and any
/// other goes behind the stored ones.
pub proof fn law_block_is_stored_once(store: Seq<BlockModel>, b: BlockModel, i: int)
    ensures
        0 <= i < store.len() && block_hash(store[i]) == block_hash(b) ==> stashed(store, b) == store,
        (forall|j: int| 0 <= j < store.len() ==> block_hash(#[trigger] store[j]) != block_hash(b))
            ==> stashed(store, b).len() == store.len() + 1 && stashed(store, b).last() == b
            && stashed(store, b).drop_last() == store,
{
    if holds_hash(store, block_hash(b)) {
        let j = choose|j: int|
            0 <= j < store.len() && block_hash(#[trigger] store[j]) == block_hash(b);
        assert(block_hash(store[j]) == block_hash(b));
    }
    assert(store.push(b).drop_last() =~= store);
}

/// What taking a block up does, case by case. A lower block, or the tip again,
/// does nothing; a sibling of the tip, and a taller block whose branch is not
/// known, is stored; a block on the tip is appended or refused; a taller block
/// of a known branch is stored or refused.
pub proof fn law_block_is_taken_up(n: NodeModel, b: BlockModel, verified: Set<ClaimModel>)
    ensures
        ({
            let r = taken_up(n, b, verified);
            let tip = n.chain.tip_height;
            &&& b.height < tip ==> r == Ok::<NodeModel, NodeError>(n)
            &&& b.height == tip && block_hash(b) == n.chain.tip_hash ==> r == Ok::<
                NodeModel,
                NodeError,
            >(n)
            &&& b.height == tip && block_hash(b) != n.chain.tip_hash ==> r == Ok::<
                NodeModel,
                NodeError,
            >(NodeModel { blocks: stashed(n.blocks, b), ..n })
            &&& b.height > tip && b.prev_hash == n.chain.tip_hash ==> match block_outcome(
                n.chain,
                b,
                n.reward,
                verified,
            ) {
                Ok(s) => r == Ok::<NodeModel, NodeError>(
                    NodeModel { blocks: n.blocks.push(b), chain: s, ..n },
                ),
                Err(e) => r == Err::<NodeModel, _>(e),
            }
            &&& b.height > tip && b.prev_hash != n.chain.tip_hash && known_branch(n.blocks, b) is None
                ==> r == Ok::<NodeModel, NodeError>(
                NodeModel { blocks: stashed(n.blocks, b), ..n },
            )
            &&& b.height > tip && b.prev_hash != n.chain.tip_hash ==> (known_branch(
                n.blocks,
                b,
            ) matches Some(s) ==> match replay(
                empty_state(n.chain.difficulty),
                s,
                n.reward,
                verified,
            ) {
                Ok(_) => r == Ok::<NodeModel, NodeError>(
                    NodeModel { blocks: n.blocks.push(b), ..n },
                ),
                Err(e) => r == Err::<NodeModel, _>(e),
            })
        }),
{
}

/// The ordinary case: a good block on the tip becomes the tip, and nothing but
/// the chain and the store changes.
pub proof fn law_next_block_becomes_tip(n: NodeModel, b: BlockModel, verified: Set<ClaimModel>)
    requires
        b.height > n.chain.tip_height,
        b.prev_hash == n.chain.tip_hash,
        block_outcome(n.chain, b, n.reward, verified) is Ok,
        none_above(n),
    ensures
        incoming_outcome(n, b, verified) is Ok,
        ({
            let next = incoming_outcome(n, b, verified)->Ok_0;
            &&& Ok::<_, NodeError>(next.chain) == block_outcome(n.chain, b, n.reward, verified)
            &&& next.chain.tip_height == b.height
            &&& next.chain.tip_hash == block_hash(b)
            &&& next.blocks.len() == n.blocks.len() + 1
            &&& next.blocks.last() == b
            &&& next.blocks.drop_last() == n.blocks
            &&& next.pool == n.pool
            &&& next.book == n.book
            &&& next.listen == n.listen
            &&& next.reward == n.reward
            &&& next.miner_key == n.miner_key
        }),
{
    let m = taken_up(n, b, verified)->Ok_0;
    law_tip_carries_work(n.chain, b, n.reward, verified);
    assert(none_above(m)) by {
        assert forall|i: int| 0 <= i < m.blocks.len() implies (#[trigger] m.blocks[i]).height
            <= m.chain.tip_height by {
            if i < n.blocks.len() {
                assert(m.blocks[i] == n.blocks[i]);
                assert(n.blocks[i].height <= n.chain.tip_height);
            }
        }
    }
    lemma_nothing_above(m, verified);
    assert(m.blocks.drop_last() =~= n.blocks);
}

/// A taller block without its ancestors is kept and moves nothing else.
pub proof fn law_early_block_is_kept(n: NodeModel, b: BlockModel, verified: Set<ClaimModel>)
    requires
        b.height > n.chain.tip_height,
        b.prev_hash != n.chain.tip_hash,
        b.prev_hash.len() > 0,
        forall|i: int| 0 <= i < n.blocks.len() ==> block_hash(#[trigger] n.blocks[i]) != b.prev_hash
            && block_hash(n.blocks[i]) != block_hash(b),
        none_above(n),
        block_hash(b) != b.prev_hash,
    ensures
        incoming_outcome(n, b, verified) == Ok::<NodeModel, NodeError>(
            NodeModel { blocks: n.blocks.push(b), ..n },
        ),
{
    law_missing_parent_breaks_branch(n.blocks, b);
    assert(!holds_hash(n.blocks, block_hash(b)));
    let m = NodeModel { blocks: n.blocks.push(b), ..n };
    assert(taken_up(n, b, verified) == Ok::<NodeModel, NodeError>(m));
    assert forall|i: int| 0 <= i < m.blocks.len() implies block_hash(#[trigger] m.blocks[i])
        != b.prev_hash by {
        if i < n.blocks.len() {
            assert(m.blocks[i] == n.blocks[i]);
        }
    }
    law_missing_parent_breaks_branch(m.blocks, b);
    lemma_no_winner(m, b, m.blocks.len(), verified);
}

proof fn lemma_no_winner(m: NodeModel, b: BlockModel, k: nat, verified: Set<ClaimModel>)
    requires
        k <= m.blocks.len(),
        known_branch(m.blocks, b) is None,
        forall|i: int|
            0 <= i < m.blocks.len() && #[trigger] m.blocks[i] != b ==> m.blocks[i].height
                <= m.chain.tip_height,
    ensures
        tallest_of(m, k, verified) is None,
    decreases k,
{
    if k > 0 {
        lemma_no_winner(m, b, (k - 1) as nat, verified);
        assert(m.blocks[k - 1] == b || m.blocks[k - 1].height <= m.chain.tip_height);
    }
}

// ---------------------------------------------------------------------------
// mining
// ---------------------------------------------------------------------------

/// The block to mine stands on the tip: one higher, naming its hash, with the
/// given time, a coinbase that pays the reward to the node's key, and behind it
/// every pooled transaction in order.
pub proof fn law_template_packs_the_pool(n: NodeModel, now: u64, i: int)
    requires
        n.chain.tip_height < u64::MAX,
    ensures
        ({
            let t = template(n, now);
            &&& t.height == n.chain.tip_height + 1
            &&& t.prev_hash == n.chain.tip_hash
            &&& t.timestamp == now
            &&& t.transactions.len() == n.pool.len() + 1
            &&& 0 <= i < n.pool.len() ==> t.transactions[i + 1] == n.pool[i]
            &&& t.transactions[0].outputs.len() == 1
            &&& t.transactions[0].outputs[0].value == n.reward
            &&& t.transactions[0].outputs[0].pubkey == n.miner_key
            &&& t.transactions[0].inputs.len() == 1
            &&& t.transactions[0].inputs[0].vout == 0xffff_ffff
            &&& t.nonce == 0
        }),
{
}

/// A mined block is committed exactly if it stands on the tip and the chain
/// takes it. It then becomes the tip and goes behind the stored blocks, and the
/// pool keeps just the transactions that have nothing in common with it.
pub proof fn law_mined_block_is_committed(
    n: NodeModel,
    b: BlockModel,
    verified: Set<ClaimModel>,
)
    ensures
        ({
            let r = commit_outcome(n, b, verified);
            let on_tip = n.chain.tip_height + 1 == b.height && n.chain.tip_hash == b.prev_hash;
            &&& !on_tip ==> r == Err::<NodeModel, _>(MineFault::Stale)
            &&& on_tip ==> match block_outcome(n.chain, b, n.reward, verified) {
                Ok(s) => {
                    &&& r is Ok
                    &&& r->Ok_0.chain == s
                    &&& r->Ok_0.blocks == n.blocks + seq![b]
                    &&& r->Ok_0.pool == n.pool.filter(
                        |x: TxModel|
                            forall|i: int|
                                0 <= i < b.transactions.len() ==> apart(
                                    x,
                                    #[trigger] b.transactions[i],
                                ),
                    )
                    &&& r->Ok_0.book == n.book
                    &&& r->Ok_0.listen == n.listen
                    &&& r->Ok_0.reward == n.reward
                    &&& r->Ok_0.miner_key == n.miner_key
                },
                Err(e) => r == Err::<NodeModel, _>(MineFault::Bad(e)),
            }
        }),
{
    law_block_leaves_the_others(n.pool, b.transactions);
    assert(n.blocks.push(b) =~= n.blocks + seq![b]);
}

/// Mining one block gives the template with the nonce that was found, committed
/// as it stands; without a nonce the budget is exhausted.
pub proof fn law_mining_commits_the_template(
    n: NodeModel,
    now: u64,
    k: u64,
    verified: Set<ClaimModel>,
)
    ensures
        mine_outcome(n, now, None, verified) == Err::<(BlockModel, NodeModel), _>(
            MineFault::Exhausted,
        ),
        ({
            let b = BlockModel { nonce: k, ..template(n, now) };
            match commit_outcome(n, b, verified) {
                Ok(next) => mine_outcome(n, now, Some(k), verified) == Ok::<_, MineFault>(
                    (b, next),
                ),
                Err(f) => mine_outcome(n, now, Some(k), verified) == Err::<
                    (BlockModel, NodeModel),
                    _,
                >(f),
            }
        }),
{
    assert(with_nonce(template(n, now), k) == BlockModel { nonce: k, ..template(n, now) });
}

/// The nonce that mining finds meets the target, is within the budget, and no
/// smaller one meets it; where none is found, none within the budget meets it.
pub proof fn law_first_nonce_is_found(
    b: BlockModel,
    difficulty: u32,
    max_nonce: u64,
    nonce: Option<u64>,
    m: u64,
)
    requires
        first_nonce(b, difficulty, max_nonce, nonce),
    ensures
        nonce matches Some(k) ==> k < max_nonce && has_work(
            BlockModel { nonce: k, ..b },
            difficulty,
        ) && (m < k ==> !has_work(BlockModel { nonce: m, ..b }, difficulty)),
        nonce is None && m < max_nonce ==> !has_work(BlockModel { nonce: m, ..b }, difficulty),
{
    assert(with_nonce(b, m) == BlockModel { nonce: m, ..b });
}

// ---------------------------------------------------------------------------
// fork choice
// ---------------------------------------------------------------------------

proof fn lemma_some_can_win(n: NodeModel, k: nat, verified: Set<ClaimModel>)
    requires
        k <= n.blocks.len(),
    ensures
        tallest_of(n, k, verified) is Some <==> exists|i: int|
            0 <= i < k && (#[trigger] n.blocks[i]).height > n.chain.tip_height && can_win(
                n,
                n.blocks[i],
                verified,
            ),
    decreases k,
{
    if k > 0 {
        lemma_some_can_win(n, (k - 1) as nat, verified);
        let x = n.blocks[k - 1];
        if tallest_of(n, (k - 1) as nat, verified) is Some {
            let i = choose|i: int|
                0 <= i < k - 1 && (#[trigger] n.blocks[i]).height > n.chain.tip_height && can_win(
                    n,
                    n.blocks[i],
                    verified,
                );
            assert(n.blocks[i].height > n.chain.tip_height);
        } else if x.height > n.chain.tip_height && can_win(n, x, verified) {
            assert(n.blocks[k - 1].height > n.chain.tip_height);
        }
    }
}

/// A node leaves its branch exactly if a stored block above the tip can win;
/// otherwise fork choice changes nothing.
pub proof fn law_branch_is_left_for_a_taller(n: NodeModel, verified: Set<ClaimModel>)
    ensures
        winner(n, verified) is Some <==> exists|i: int|
            0 <= i < n.blocks.len() && (#[trigger] n.blocks[i]).height > n.chain.tip_height
                && can_win(n, n.blocks[i], verified),
        winner(n, verified) is None ==> on_longest(n, verified) == n,
{
    lemma_some_can_win(n, n.blocks.len(), verified);
}

} // verus!
