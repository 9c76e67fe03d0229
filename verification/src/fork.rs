//! What holds of fork choice and mining: the longest known branch wins, the
//! ledger stays backed, and a branch is found however long it is.
use vstd::prelude::*;

use crate::block::{block_hash, with_nonce, BlockModel};
use crate::chain::{block_outcome, empty_state, Coins, NodeError, StateModel};
use crate::ledger::{
    backed, law_no_inflation, law_no_premine, law_replayed_chain_is_backed, law_tip_carries_work,
    lemma_replay_heights, replay,
};
use crate::mempool::{
    law_accept_keeps_pool_ok, law_block_drains_pool, outlives, pool_ok, without_all_mined,
};
use crate::node::{
    ancestry, block_named, can_win, commit_outcome, holds_hash, incoming_outcome, known_branch,
    offered, on_longest, stashed, taken_up, tallest_of, template, winner, NodeModel,
};
use crate::sig::ClaimModel;
use crate::tx::TxModel;

verus! {

// ---------------------------------------------------------------------------
// branches
// ---------------------------------------------------------------------------

/// The block found for a hash has the hash and is one of the store.
pub proof fn lemma_block_named(store: Seq<BlockModel>, hash: Seq<char>)
    ensures
        block_named(store, hash) is Some <==> holds_hash(store, hash),
        block_named(store, hash) matches Some(b) ==> block_hash(b) == hash && store.contains(b),
    decreases store.len(),
{
    if store.len() > 0 {
        let rest = store.drop_first();
        lemma_block_named(rest, hash);
        if block_hash(store[0]) == hash {
            assert(store.contains(store[0]));
        } else {
            if holds_hash(rest, hash) {
                let i = choose|i: int|
                    0 <= i < rest.len() && block_hash(#[trigger] rest[i]) == hash;
                assert(block_hash(store[i + 1]) == hash);
                let b = block_named(rest, hash)->0;
                let j = choose|j: int| 0 <= j < rest.len() && rest[j] == b;
                assert(store[j + 1] == b);
            }
            if holds_hash(store, hash) {
                let i = choose|i: int|
                    0 <= i < store.len() && block_hash(#[trigger] store[i]) == hash;
                assert(block_hash(rest[i - 1]) == hash);
            }
        }
    }
}

/// Whether blocks are linked: the first names no previous block, and every
/// other names the hash of the one before it.
pub open spec fn linked(branch: Seq<BlockModel>) -> bool {
    &&& branch.len() > 0
    &&& branch[0].prev_hash.len() == 0
    &&& forall|i: int, j: int|
        0 <= i && j == i + 1 && j < branch.len() ==> (#[trigger] branch[j]).prev_hash
            == block_hash(#[trigger] branch[i])
}

/// A branch that was found is linked, ends in the given block, and consists of
/// stored blocks otherwise.
pub proof fn law_found_branch_is_linked(store: Seq<BlockModel>, b: BlockModel, hops: nat)
    requires
        ancestry(store, b, hops) is Some,
    ensures
        ({
            let branch = ancestry(store, b, hops)->0;
            &&& linked(branch)
            &&& branch.last() == b
            &&& branch.len() <= hops + 1
            &&& forall|i: int| 0 <= i < branch.len() - 1 ==> store.contains(#[trigger] branch[i])
        }),
    decreases hops,
{
    if b.prev_hash.len() > 0 {
        lemma_block_named(store, b.prev_hash);
        let p = block_named(store, b.prev_hash)->0;
        law_found_branch_is_linked(store, p, (hops - 1) as nat);
        let front = ancestry(store, p, (hops - 1) as nat)->0;
        let branch = front.push(b);
        assert(branch[0] == front[0]);
        assert forall|i: int, j: int| 0 <= i && j == i + 1 && j < branch.len() implies (
        #[trigger] branch[j]).prev_hash == block_hash(#[trigger] branch[i]) by {
            if j < front.len() {
                assert(front[j].prev_hash == block_hash(front[i]));
            } else {
                assert(branch[i] == front.last());
            }
        }
        assert forall|i: int| 0 <= i < branch.len() - 1 implies store.contains(
            #[trigger] branch[i],
        ) by {
            if i < front.len() - 1 {
                assert(store.contains(front[i]));
            } else {
                assert(branch[i] == p);
            }
        }
    }
}

proof fn lemma_more_hops(store: Seq<BlockModel>, b: BlockModel, hops: nat, more: nat)
    requires
        ancestry(store, b, hops) is Some,
        hops <= more,
    ensures
        ancestry(store, b, more) == ancestry(store, b, hops),
    decreases hops,
{
    if b.prev_hash.len() > 0 {
        let p = block_named(store, b.prev_hash)->0;
        lemma_more_hops(store, p, (hops - 1) as nat, (more - 1) as nat);
    }
}

/// The branch of a block of a found branch is the part up to that block.
proof fn lemma_ancestry_prefix(store: Seq<BlockModel>, b: BlockModel, hops: nat, i: int)
    requires
        ancestry(store, b, hops) is Some,
        0 <= i < ancestry(store, b, hops)->0.len(),
    ensures
        ancestry(store, ancestry(store, b, hops)->0[i], hops) == Some(
            ancestry(store, b, hops)->0.take(i + 1),
        ),
    decreases hops,
{
    let branch = ancestry(store, b, hops)->0;
    law_found_branch_is_linked(store, b, hops);
    if i == branch.len() - 1 {
        assert(branch.take(i + 1) =~= branch);
    } else {
        let p = block_named(store, b.prev_hash)->0;
        let front = ancestry(store, p, (hops - 1) as nat)->0;
        assert(branch == front.push(b));
        lemma_ancestry_prefix(store, p, (hops - 1) as nat, i);
        assert(front[i] == branch[i]);
        assert(front.take(i + 1) =~= branch.take(i + 1));
        lemma_more_hops(store, branch[i], (hops - 1) as nat, hops);
    }
}

/// As many hops as there are stored blocks are enough: a branch that can be
/// found at all, however many hops are allowed, is found, and is the same.
pub proof fn law_branch_is_found(store: Seq<BlockModel>, b: BlockModel, hops: nat)
    requires
        ancestry(store, b, hops) is Some,
    ensures
        known_branch(store, b) == ancestry(store, b, hops),
{
    let branch = ancestry(store, b, hops)->0;
    law_found_branch_is_linked(store, b, hops);
    let below = branch.drop_last();
    assert(below.no_duplicates()) by {
        assert forall|i: int, j: int|
            0 <= i < below.len() && 0 <= j < below.len() && i != j implies below[i] != below[j] by {
            lemma_ancestry_prefix(store, b, hops, i);
            lemma_ancestry_prefix(store, b, hops, j);
            assert(branch.take(i + 1).len() == i + 1 && branch.take(j + 1).len() == j + 1);
            assert(branch[i] == below[i] && branch[j] == below[j]);
        }
    }
    assert forall|x: BlockModel| below.to_set().contains(x) implies store.to_set().contains(x) by {
        let i = choose|i: int| 0 <= i < below.len() && below[i] == x;
        assert(store.contains(branch[i]));
    }
    below.unique_seq_to_set();
    store.lemma_cardinality_of_set();
    vstd::set_lib::lemma_len_subset(below.to_set(), store.to_set());
    let exact = (branch.len() - 1) as nat;
    lemma_exact_hops(store, b, hops);
    lemma_more_hops(store, b, exact, store.len());
}

/// A branch of `n` blocks takes `n - 1` hops to find.
proof fn lemma_exact_hops(store: Seq<BlockModel>, b: BlockModel, hops: nat)
    requires
        ancestry(store, b, hops) is Some,
    ensures
        ancestry(store, b, (ancestry(store, b, hops)->0.len() - 1) as nat) == ancestry(
            store,
            b,
            hops,
        ),
    decreases hops,
{
    law_found_branch_is_linked(store, b, hops);
    if b.prev_hash.len() > 0 {
        let p = block_named(store, b.prev_hash)->0;
        law_found_branch_is_linked(store, p, (hops - 1) as nat);
        lemma_exact_hops(store, p, (hops - 1) as nat);
    }
}

// ---------------------------------------------------------------------------
// the tip
// ---------------------------------------------------------------------------

/// A replayed branch ends in its last block.
pub proof fn lemma_replay_tip(
    s: StateModel,
    blocks: Seq<BlockModel>,
    reward: u64,
    verified: Set<ClaimModel>,
)
    requires
        blocks.len() > 0,
        replay(s, blocks, reward, verified) is Ok,
    ensures
        ({
            let end = replay(s, blocks, reward, verified)->Ok_0;
            &&& end.tip_height == blocks.last().height
            &&& end.tip_hash == block_hash(blocks.last())
            &&& end.difficulty == s.difficulty
        }),
    decreases blocks.len(),
{
    law_tip_carries_work(s, blocks[0], reward, verified);
    let next = block_outcome(s, blocks[0], reward, verified)->Ok_0;
    let rest = blocks.drop_first();
    if rest.len() > 0 {
        lemma_replay_tip(next, rest, reward, verified);
        assert(rest.last() == blocks.last());
    } else {
        assert(blocks.last() == blocks[0]);
    }
}

/// What the winner of fork choice is: a stored block above the tip that can
/// win, none taller and none of its height stored behind it; there is one as
/// soon as there is such a block.
proof fn lemma_tallest(n: NodeModel, k: nat, verified: Set<ClaimModel>)
    requires
        k <= n.blocks.len(),
    ensures
        match tallest_of(n, k, verified) {
            Some(x) => {
                &&& n.blocks.contains(x)
                &&& x.height > n.chain.tip_height
                &&& can_win(n, x, verified)
                &&& forall|i: int|
                    0 <= i < k && (#[trigger] n.blocks[i]).height > n.chain.tip_height && can_win(
                        n,
                        n.blocks[i],
                        verified,
                    ) ==> n.blocks[i].height <= x.height
            },
            None => forall|i: int|
                0 <= i < k && (#[trigger] n.blocks[i]).height > n.chain.tip_height ==> !can_win(
                    n,
                    n.blocks[i],
                    verified,
                ),
        },
    decreases k,
{
    if k > 0 {
        lemma_tallest(n, (k - 1) as nat, verified);
        assert(n.blocks.contains(n.blocks[k - 1]));
    }
}

/// What going over to the winner comes to.
pub proof fn lemma_on_longest(n: NodeModel, verified: Set<ClaimModel>)
    ensures
        ({
            let next = on_longest(n, verified);
            match winner(n, verified) {
                Some(x) => {
                    &&& n.blocks.contains(x)
                    &&& x.height > n.chain.tip_height
                    &&& known_branch(n.blocks, x) == Some(next.blocks)
                    &&& linked(next.blocks)
                    &&& next.blocks.last() == x
                    &&& replay(empty_state(n.chain.difficulty), next.blocks, n.reward, verified)
                        == Ok::<StateModel, NodeError>(next.chain)
                    &&& next.chain.tip_height == x.height
                    &&& next.chain.tip_hash == block_hash(x)
                    &&& next.chain.difficulty == n.chain.difficulty
                    &&& forall|i: int|
                        0 <= i < next.blocks.len() ==> (#[trigger] next.blocks[i]).height
                            <= x.height && n.blocks.contains(next.blocks[i])
                },
                None => next == n,
            }
        }),
{
    lemma_tallest(n, n.blocks.len(), verified);
    if winner(n, verified) is Some {
        let x = winner(n, verified)->0;
        let branch = known_branch(n.blocks, x)->0;
        let zero = empty_state(n.chain.difficulty);
        law_found_branch_is_linked(n.blocks, x, n.blocks.len());
        lemma_replay_tip(zero, branch, n.reward, verified);
        lemma_replay_heights(zero, branch, n.reward, verified, branch.len() - 1);
        assert forall|i: int| 0 <= i < branch.len() implies (#[trigger] branch[i]).height
            <= x.height && n.blocks.contains(branch[i]) by {
            lemma_replay_heights(zero, branch, n.reward, verified, i);
        }
    }
}

/// Whether a node stores no block above its tip.
pub open spec fn none_above(n: NodeModel) -> bool {
    forall|i: int| 0 <= i < n.blocks.len() ==> (#[trigger] n.blocks[i]).height <= n.chain.tip_height
}

/// A node that stores no block above its tip has nothing to go over to.
pub proof fn lemma_nothing_above(n: NodeModel, verified: Set<ClaimModel>)
    requires
        none_above(n),
    ensures
        winner(n, verified) is None,
        on_longest(n, verified) == n,
{
    lemma_on_longest(n, verified);
    if winner(n, verified) is Some {
        let x = winner(n, verified)->0;
        let i = choose|i: int| 0 <= i < n.blocks.len() && n.blocks[i] == x;
        assert(n.blocks[i].height <= n.chain.tip_height);
    }
}

/// What taking a block up leaves as it was.
pub proof fn lemma_taken_up(n: NodeModel, b: BlockModel, verified: Set<ClaimModel>)
    requires
        taken_up(n, b, verified) is Ok,
    ensures
        ({
            let m = taken_up(n, b, verified)->Ok_0;
            &&& m.chain == n.chain || {
                &&& block_outcome(n.chain, b, n.reward, verified) == Ok::<StateModel, NodeError>(
                    m.chain,
                )
                &&& m.chain.tip_height == b.height > n.chain.tip_height
                &&& m.chain.tip_hash == block_hash(b)
                &&& m.blocks == n.blocks.push(b)
            }
            &&& m.blocks == n.blocks || m.blocks == n.blocks.push(b)
            &&& m.chain.difficulty == n.chain.difficulty
            &&& m.reward == n.reward
            &&& m.listen == n.listen
            &&& m.miner_key == n.miner_key
            &&& m.book == n.book
            &&& m.pool == n.pool
        }),
{
    if b.height > n.chain.tip_height && b.prev_hash == n.chain.tip_hash {
        law_tip_carries_work(n.chain, b, n.reward, verified);
    }
}

/// Longest chain: a taller branch wins once it is fully known. After every
/// accepted block, whichever it was, no stored block whose branch is fully
/// known and replays is taller than the tip.
pub proof fn law_known_taller_branch_wins(
    n: NodeModel,
    b: BlockModel,
    v: Set<ClaimModel>,
    x: BlockModel,
)
    requires
        incoming_outcome(n, b, v) is Ok,
        incoming_outcome(n, b, v)->Ok_0.blocks.contains(x),
        known_branch(incoming_outcome(n, b, v)->Ok_0.blocks, x) matches Some(br) && replay(
            empty_state(n.chain.difficulty),
            br,
            n.reward,
            v,
        ) is Ok,
    ensures
        x.height <= incoming_outcome(n, b, v)->Ok_0.chain.tip_height,
{
    let m = taken_up(n, b, v)->Ok_0;
    let next = incoming_outcome(n, b, v)->Ok_0;
    lemma_taken_up(n, b, v);
    lemma_tallest(m, m.blocks.len(), v);
    lemma_on_longest(m, v);
    let i = choose|i: int| 0 <= i < next.blocks.len() && next.blocks[i] == x;
    assert(next.blocks[i] == x);
}

/// An accepted block either leaves the chain state as it was or brings a
/// strictly taller chain, whose tip is that block or one that was stored. The
/// difficulty, the reward, the identity of the node and its address book stay.
pub proof fn law_tip_only_gets_taller(n: NodeModel, b: BlockModel, verified: Set<ClaimModel>)
    requires
        incoming_outcome(n, b, verified) is Ok,
    ensures
        ({
            let next = incoming_outcome(n, b, verified)->Ok_0;
            &&& next.chain == n.chain || {
                &&& next.chain.tip_height > n.chain.tip_height
                &&& next.blocks.len() > 0
                &&& next.chain.tip_height == next.blocks.last().height
                &&& next.chain.tip_hash == block_hash(next.blocks.last())
                &&& next.blocks.last() == b || n.blocks.contains(next.blocks.last())
            }
            &&& next.chain.difficulty == n.chain.difficulty
            &&& next.reward == n.reward
            &&& next.listen == n.listen
            &&& next.miner_key == n.miner_key
            &&& next.book == n.book
        }),
{
    let m = taken_up(n, b, verified)->Ok_0;
    lemma_taken_up(n, b, verified);
    lemma_on_longest(m, verified);
    if winner(m, verified) is Some {
        let x = winner(m, verified)->0;
        let i = choose|i: int| 0 <= i < m.blocks.len() && m.blocks[i] == x;
        if i < n.blocks.len() {
            assert(n.blocks[i] == x);
        }
    }
}

/// A stored branch stays known, and stays the same, when a block is added to
/// the store.
proof fn lemma_branch_survives(store: Seq<BlockModel>, y: BlockModel, b: BlockModel, hops: nat)
    requires
        ancestry(store, b, hops) is Some,
    ensures
        ancestry(store.push(y), b, hops) == ancestry(store, b, hops),
    decreases hops,
{
    if b.prev_hash.len() > 0 {
        lemma_name_survives(store, y, b.prev_hash);
        let p = block_named(store, b.prev_hash)->0;
        lemma_branch_survives(store, y, p, (hops - 1) as nat);
    }
}

proof fn lemma_name_survives(store: Seq<BlockModel>, y: BlockModel, hash: Seq<char>)
    requires
        block_named(store, hash) is Some,
    ensures
        block_named(store.push(y), hash) == block_named(store, hash),
    decreases store.len(),
{
    assert(store.push(y)[0] == store[0]);
    if block_hash(store[0]) != hash {
        assert(store.push(y).drop_first() =~= store.drop_first().push(y));
        lemma_name_survives(store.drop_first(), y, hash);
    }
}

/// A block that extends the tip of a node without a stored block above it
/// leaves no stored block above the tip.
pub proof fn lemma_extension(n: NodeModel, b: BlockModel, verified: Set<ClaimModel>)
    requires
        none_above(n),
        b.prev_hash == n.chain.tip_hash,
        block_outcome(n.chain, b, n.reward, verified) is Ok,
    ensures
        ({
            let m = NodeModel {
                chain: block_outcome(n.chain, b, n.reward, verified)->Ok_0,
                blocks: n.blocks.push(b),
                ..n
            };
            &&& none_above(m)
            &&& incoming_outcome(n, b, verified) == Ok::<NodeModel, NodeError>(m)
        }),
{
    let next = block_outcome(n.chain, b, n.reward, verified)->Ok_0;
    let m = NodeModel { chain: next, blocks: n.blocks.push(b), ..n };
    law_tip_carries_work(n.chain, b, n.reward, verified);
    assert forall|i: int| 0 <= i < m.blocks.len() implies (#[trigger] m.blocks[i]).height
        <= m.chain.tip_height by {
        if i < n.blocks.len() {
            assert(m.blocks[i] == n.blocks[i]);
        }
    }
    lemma_nothing_above(m, verified);
}

/// Whether the stored block at `p` is above the tip and can win, and every
/// other that can win is lower, or no taller and stored earlier.
pub open spec fn prevails(n: NodeModel, p: int, verified: Set<ClaimModel>) -> bool {
    &&& 0 <= p < n.blocks.len()
    &&& n.blocks[p].height > n.chain.tip_height
    &&& can_win(n, n.blocks[p], verified)
    &&& forall|i: int|
        0 <= i < n.blocks.len() && can_win(n, #[trigger] n.blocks[i], verified) ==> {
            ||| n.blocks[i].height < n.blocks[p].height
            ||| n.blocks[i].height == n.blocks[p].height && i <= p
        }
}

/// The stored block that prevails is the winner.
proof fn lemma_winner(n: NodeModel, p: int, k: nat, verified: Set<ClaimModel>)
    requires
        prevails(n, p, verified),
        k <= n.blocks.len(),
    ensures
        p < k ==> tallest_of(n, k, verified) == Some(n.blocks[p]),
    decreases k,
{
    if k > 0 {
        lemma_winner(n, p, (k - 1) as nat, verified);
        if p == k - 1 {
            lemma_tallest(n, (k - 1) as nat, verified);
            if tallest_of(n, (k - 1) as nat, verified) is Some {
                let y = tallest_of(n, (k - 1) as nat, verified)->0;
                let i = choose|i: int| 0 <= i < n.blocks.len() && n.blocks[i] == y;
                assert(n.blocks[i] == y);
            }
        }
    }
}

/// A taller block whose branch is fully known and replays is accepted, and the
/// tip is then at least as high. Unless a stored block that can win is taller
/// still, the block becomes the tip and the store holds exactly its branch.
pub proof fn law_taller_branch_is_taken(n: NodeModel, b: BlockModel, verified: Set<ClaimModel>)
    requires
        b.height > n.chain.tip_height,
        b.prev_hash != n.chain.tip_hash,
        can_win(n, b, verified),
    ensures
        taken_up(n, b, verified) is Ok,
        incoming_outcome(n, b, verified) is Ok,
        incoming_outcome(n, b, verified)->Ok_0.chain.tip_height >= b.height,
        ({
            let m = taken_up(n, b, verified)->Ok_0;
            forall|i: int|
                0 <= i < n.blocks.len() && can_win(m, #[trigger] n.blocks[i], verified)
                    ==> n.blocks[i].height <= b.height
        }) ==> {
            let next = incoming_outcome(n, b, verified)->Ok_0;
            let branch = known_branch(n.blocks, b)->0;
            &&& next.blocks == branch
            &&& next.chain.tip_hash == block_hash(b)
            &&& replay(empty_state(n.chain.difficulty), branch, n.reward, verified) == Ok::<
                StateModel,
                NodeError,
            >(next.chain)
        },
{
    let m = taken_up(n, b, verified)->Ok_0;
    let hops = n.blocks.len();
    lemma_branch_survives(n.blocks, b, b, hops);
    lemma_more_hops(m.blocks, b, hops, m.blocks.len());
    assert(m.blocks[hops as int] == b);
    assert(can_win(m, b, verified));
    lemma_tallest(m, m.blocks.len(), verified);
    lemma_on_longest(m, verified);
    if forall|i: int|
        0 <= i < n.blocks.len() && can_win(m, #[trigger] n.blocks[i], verified)
            ==> n.blocks[i].height <= b.height {
        assert forall|i: int|
            0 <= i < m.blocks.len() && can_win(m, #[trigger] m.blocks[i], verified) implies {
            ||| m.blocks[i].height < b.height
            ||| m.blocks[i].height == b.height && i <= hops
        } by {
            if i < hops {
                assert(m.blocks[i] == n.blocks[i]);
            }
        }
        assert(prevails(m, hops as int, verified));
        lemma_winner(m, hops as int, m.blocks.len(), verified);
    }
}

/// Whichever block completes a branch, the branch wins: once the block is taken
/// up, the stored block at `p`, if it can win, brings the tip to its height at
/// least. It becomes the tip if it is above the old one and every other stored
/// block that can win is lower, or no taller and stored earlier.
pub proof fn law_completed_branch_wins(
    n: NodeModel,
    b: BlockModel,
    verified: Set<ClaimModel>,
    p: int,
)
    requires
        taken_up(n, b, verified) is Ok,
        0 <= p < taken_up(n, b, verified)->Ok_0.blocks.len(),
        can_win(
            taken_up(n, b, verified)->Ok_0,
            taken_up(n, b, verified)->Ok_0.blocks[p],
            verified,
        ),
    ensures
        incoming_outcome(n, b, verified) is Ok,
        ({
            let m = taken_up(n, b, verified)->Ok_0;
            let next = incoming_outcome(n, b, verified)->Ok_0;
            &&& next.chain.tip_height >= m.blocks[p].height
            &&& prevails(m, p, verified) ==> {
                &&& next.chain.tip_height == m.blocks[p].height
                &&& next.chain.tip_hash == block_hash(m.blocks[p])
                &&& Some(next.blocks) == known_branch(m.blocks, m.blocks[p])
            }
        }),
{
    let m = taken_up(n, b, verified)->Ok_0;
    lemma_tallest(m, m.blocks.len(), verified);
    lemma_on_longest(m, verified);
    if prevails(m, p, verified) {
        lemma_winner(m, p, m.blocks.len(), verified);
    }
}

/// A node that has gone over to its longest branch is not moved by a block
/// below its tip, nor by its tip again.
pub proof fn law_old_block_changes_nothing(n: NodeModel, b: BlockModel, verified: Set<ClaimModel>)
    requires
        winner(n, verified) is None,
        b.height < n.chain.tip_height || (b.height == n.chain.tip_height && block_hash(b)
            == n.chain.tip_hash),
    ensures
        incoming_outcome(n, b, verified) == Ok::<NodeModel, NodeError>(n),
{
}

/// Once a block is accepted the node is on its longest branch: going over
/// again changes nothing.
pub proof fn law_node_is_on_longest(n: NodeModel, b: BlockModel, verified: Set<ClaimModel>)
    requires
        incoming_outcome(n, b, verified) is Ok,
    ensures
        winner(incoming_outcome(n, b, verified)->Ok_0, verified) is None,
        on_longest(incoming_outcome(n, b, verified)->Ok_0, verified) == incoming_outcome(
            n,
            b,
            verified,
        )->Ok_0,
{
    let m = taken_up(n, b, verified)->Ok_0;
    let next = incoming_outcome(n, b, verified)->Ok_0;
    lemma_on_longest(m, verified);
    lemma_tallest(next, next.blocks.len(), verified);
    if winner(m, verified) is Some && winner(next, verified) is Some {
        let x = winner(next, verified)->0;
        let i = choose|i: int| 0 <= i < next.blocks.len() && next.blocks[i] == x;
        assert(next.blocks[i].height <= next.chain.tip_height);
    }
}

/// Every block is validated before it touches our chain: where an incoming
/// block changes the chain state, the new state is what appending the block to
/// our tip comes to, or what replaying the linked blocks of the store from the
/// start comes to.
pub proof fn law_blocks_are_validated_first(
    n: NodeModel,
    b: BlockModel,
    verified: Set<ClaimModel>,
)
    requires
        incoming_outcome(n, b, verified) is Ok,
        incoming_outcome(n, b, verified)->Ok_0.chain != n.chain,
    ensures
        ({
            let next = incoming_outcome(n, b, verified)->Ok_0;
            ||| block_outcome(n.chain, b, n.reward, verified) == Ok::<StateModel, NodeError>(
                next.chain,
            )
            ||| {
                &&& linked(next.blocks)
                &&& replay(empty_state(n.chain.difficulty), next.blocks, n.reward, verified) == Ok::<
                    StateModel,
                    NodeError,
                >(next.chain)
            }
        }),
{
    lemma_taken_up(n, b, verified);
    lemma_on_longest(taken_up(n, b, verified)->Ok_0, verified);
}

/// After a change of branch the store holds exactly the winning branch, whose
/// blocks are linked from the first to the tip.
pub proof fn law_reorg_keeps_the_winning_branch(
    n: NodeModel,
    b: BlockModel,
    verified: Set<ClaimModel>,
)
    requires
        incoming_outcome(n, b, verified) is Ok,
        winner(taken_up(n, b, verified)->Ok_0, verified) is Some,
    ensures
        ({
            let m = taken_up(n, b, verified)->Ok_0;
            let next = incoming_outcome(n, b, verified)->Ok_0;
            let x = winner(m, verified)->0;
            &&& Some(next.blocks) == known_branch(m.blocks, x)
            &&& linked(next.blocks)
            &&& next.blocks.last() == x
            &&& replay(empty_state(n.chain.difficulty), next.blocks, n.reward, verified) == Ok::<
                StateModel,
                NodeError,
            >(next.chain)
        }),
{
    lemma_taken_up(n, b, verified);
    lemma_on_longest(taken_up(n, b, verified)->Ok_0, verified);
}

/// Whatever block comes in, the unspent outputs stay worth no more than what
/// was minted.
pub proof fn law_incoming_keeps_ledger_backed(
    n: NodeModel,
    b: BlockModel,
    verified: Set<ClaimModel>,
)
    requires
        backed(n.chain),
        incoming_outcome(n, b, verified) is Ok,
    ensures
        backed(incoming_outcome(n, b, verified)->Ok_0.chain),
{
    let m = taken_up(n, b, verified)->Ok_0;
    lemma_taken_up(n, b, verified);
    lemma_on_longest(m, verified);
    if m.chain != n.chain {
        law_no_inflation(n.chain, b, n.reward, verified);
    }
    if winner(m, verified) is Some {
        law_no_premine(n.chain.difficulty);
        law_replayed_chain_is_backed(
            empty_state(n.chain.difficulty),
            on_longest(m, verified).blocks,
            n.reward,
            verified,
        );
    }
}

/// A block is stashed once, however often it arrives.
pub proof fn law_stash_is_idempotent(store: Seq<BlockModel>, b: BlockModel)
    ensures
        stashed(stashed(store, b), b) == stashed(store, b),
        holds_hash(stashed(store, b), block_hash(b)),
{
    if !holds_hash(store, block_hash(b)) {
        let s = store.push(b);
        assert(block_hash(s[store.len() as int]) == block_hash(b));
    }
}

// ---------------------------------------------------------------------------
// the pool
// ---------------------------------------------------------------------------

/// Offering transactions keeps the pool in order.
pub proof fn law_offering_keeps_pool_ok(
    pool: Seq<TxModel>,
    txs: Seq<TxModel>,
    coins: Coins,
    verified: Set<ClaimModel>,
)
    requires
        pool_ok(pool),
    ensures
        pool_ok(offered(pool, txs, coins, verified)),
    decreases txs.len(),
{
    if txs.len() > 0 {
        law_offering_keeps_pool_ok(pool, txs.drop_last(), coins, verified);
        law_accept_keeps_pool_ok(
            offered(pool, txs.drop_last(), coins, verified),
            txs.last(),
            coins,
            verified,
        );
    }
}

/// Mining packs the whole pool and drains it: once a block mined on the
/// template is on the tip, the tip is one higher and nothing is pooled.
pub proof fn law_mining_drains_pool(
    n: NodeModel,
    now: u64,
    nonce: u64,
    verified: Set<ClaimModel>,
)
    requires
        n.chain.tip_height < u64::MAX,
        commit_outcome(n, with_nonce(template(n, now), nonce), verified) is Ok,
    ensures
        ({
            let next = commit_outcome(n, with_nonce(template(n, now), nonce), verified)->Ok_0;
            &&& next.pool.len() == 0
            &&& next.chain.tip_height == n.chain.tip_height + 1
            &&& next.blocks == n.blocks.push(with_nonce(template(n, now), nonce))
            &&& template(n, now).transactions.drop_first() == n.pool
        }),
{
    let mined = with_nonce(template(n, now), nonce);
    let left = without_all_mined(n.pool, mined.transactions);
    law_tip_carries_work(n.chain, mined, n.reward, verified);
    if left.len() > 0 {
        let x = left[0];
        assert(left.contains(x));
        law_block_drains_pool(n.pool, mined.transactions, x);
        let i = choose|i: int| 0 <= i < n.pool.len() && n.pool[i] == x;
        assert(mined.transactions[i + 1] == x);
        assert(outlives(x, mined.transactions[i + 1]));
    }
    assert(template(n, now).transactions.drop_first() =~= n.pool);
}

} // verus!
