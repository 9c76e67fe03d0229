//! Catching up: a node that is sent a longer chain, among whatever else the
//! sender has stored, ends on the tip of that chain.
use vstd::prelude::*;

use crate::block::{block_hash, BlockModel};
use crate::chain::{block_outcome, empty_state, NodeError, StateModel};
use crate::fork::{
    law_found_branch_is_linked, law_old_block_changes_nothing, law_taller_branch_is_taken,
    law_tip_only_gets_taller, lemma_block_named, lemma_on_longest, lemma_replay_tip, lemma_taken_up,
    linked, none_above,
};
use crate::ledger::{law_tip_carries_work, lemma_replay_heights, replay};
use crate::node::{
    ancestry, block_named, can_win, commit_outcome, holds_hash, incoming_outcome, known_branch,
    on_longest, stashed, taken_up, winner, NodeModel,
};
use crate::protocol::{applied_count, blocks_above, delivered};
use crate::sig::ClaimModel;

verus! {

/// A node that is sent blocks, and the chain among them that it stands on: the
/// node has the first `k` blocks of `list`, and `sent` holds the others.
pub struct Delivery {
    pub node: NodeModel,
    pub list: Seq<BlockModel>,
    pub k: int,
    pub sent: Seq<BlockModel>,
    pub verified: Set<ClaimModel>,
}

/// The chain state before the first block.
pub open spec fn start(d: Delivery) -> StateModel {
    empty_state(d.node.chain.difficulty)
}

/// Whether a node stands on the first `h` blocks of the chain.
pub open spec fn stands_at(d: Delivery, m: NodeModel, h: int) -> bool {
    &&& 0 <= h <= d.list.len()
    &&& replay(start(d), d.list.take(h), d.node.reward, d.verified) == Ok::<StateModel, NodeError>(
        m.chain,
    )
    &&& m.reward == d.node.reward
    &&& m.chain.difficulty == d.node.chain.difficulty
}

/// Whether the chain replays from the start to `end`, and the node stands on it.
pub open spec fn on_the_way(d: Delivery, end: StateModel) -> bool {
    &&& replay(start(d), d.list, d.node.reward, d.verified) == Ok::<StateModel, NodeError>(end)
    &&& stands_at(d, d.node, d.k)
}

// ---------------------------------------------------------------------------
// what is sent
// ---------------------------------------------------------------------------

/// How many blocks of the chain there are once `i` of the sent blocks have
/// come, beginning with the first `k`.
pub open spec fn reached(list: Seq<BlockModel>, k: int, sent: Seq<BlockModel>, i: int) -> int
    decreases i,
{
    if i <= 0 {
        k
    } else {
        let c = reached(list, k, sent, i - 1);
        if c < list.len() && sent[i - 1] == list[c] {
            c + 1
        } else {
            c
        }
    }
}

/// Whether the `i`th sent block is the next of the chain.
pub open spec fn is_next(list: Seq<BlockModel>, k: int, sent: Seq<BlockModel>, i: int) -> bool {
    let c = reached(list, k, sent, i);
    c < list.len() && sent[i] == list[c]
}

/// The blocks that have come to the node with the first `i` of the sent ones.
pub open spec fn come(d: Delivery, i: int) -> Set<BlockModel> {
    d.node.blocks.to_set().union(d.sent.take(i).to_set())
}

/// Whether `s` is a branch that ends in `y` and otherwise holds given blocks.
pub open spec fn branch_to(given: Set<BlockModel>, s: Seq<BlockModel>, y: BlockModel) -> bool {
    &&& linked(s)
    &&& s.last() == y
    &&& forall|t: int| 0 <= t < s.len() - 1 ==> given.contains(#[trigger] s[t])
}

/// Whether an ancestor of a block is missing among given blocks.
pub open spec fn unconnected(given: Set<BlockModel>, y: BlockModel) -> bool {
    forall|s: Seq<BlockModel>| !#[trigger] branch_to(given, s, y)
}

/// Whether no branch of blocks that come to the node makes a block able to win.
pub open spec fn hopeless(d: Delivery, y: BlockModel) -> bool {
    forall|s: Seq<BlockModel>| #[trigger]
        branch_to(come(d, d.sent.len() as int), s, y) ==> replay(
            start(d),
            s,
            d.node.reward,
            d.verified,
        ) is Err
}

/// Whether the `i`th sent block stays beside the chain: it is not above what
/// has come of the chain, or an ancestor of it has not come yet and it cannot
/// win later either.
pub open spec fn stays_beside(d: Delivery, i: int) -> bool {
    let c = reached(d.list, d.k, d.sent, i);
    let y = d.sent[i];
    ||| y.height <= c
    ||| {
        &&& c > 0 ==> y.prev_hash != block_hash(d.list[c - 1])
        &&& unconnected(come(d, i), y)
        &&& hopeless(d, y)
    }
}

/// Whether the sent blocks hold the rest of the chain in order, and every other
/// stays beside it.
pub open spec fn carries_chain(d: Delivery) -> bool {
    &&& reached(d.list, d.k, d.sent, d.sent.len() as int) == d.list.len()
    &&& forall|i: int|
        0 <= i < d.sent.len() ==> is_next(d.list, d.k, d.sent, i) || #[trigger] stays_beside(d, i)
}

// ---------------------------------------------------------------------------
// what the node has stored
// ---------------------------------------------------------------------------

/// The node once it has taken up the first `i` of the sent blocks, each
/// without fork choice.
pub open spec fn along(d: Delivery, i: int) -> NodeModel
    decreases i,
{
    if i <= 0 {
        d.node
    } else {
        match taken_up(along(d, i - 1), d.sent[i - 1], d.verified) {
            Ok(m) => m,
            Err(_) => along(d, i - 1),
        }
    }
}

/// Whether every block has a hash, and no two the same.
pub open spec fn hashes_differ(s: Seq<BlockModel>) -> bool {
    &&& forall|i: int| 0 <= i < s.len() ==> block_hash(#[trigger] s[i]).len() > 0
    &&& forall|i: int, j: int|
        0 <= i < j < s.len() ==> block_hash(#[trigger] s[i]) != block_hash(#[trigger] s[j])
}

/// Whether a branch leads on to the end of the chain: it is part of the chain,
/// or its last block is all that parts it from the chain, and the chain goes on
/// above that.
pub open spec fn leads_on(d: Delivery, branch: Seq<BlockModel>) -> bool {
    let below = branch.len() - 1;
    ||| branch.len() <= d.list.len() && branch == d.list.take(branch.len() as int)
    ||| {
        &&& 0 <= below
        &&& branch.len() < d.list.len()
        &&& branch.drop_last() == d.list.take(below)
        &&& hashes_differ(branch.push(d.list[below]))
        &&& forall|i: int|
            0 <= i < d.sent.len() && block_hash(#[trigger] d.sent[i]) == block_hash(d.list[below])
                ==> d.sent[i] == d.list[below]
    }
}

/// Whether the node goes over to no stored branch with the first `i` blocks.
pub open spec fn undisturbed(d: Delivery, i: int) -> bool {
    forall|j: int| 0 < j <= i ==> winner(#[trigger] along(d, j), d.verified) is None
}

/// Whether the first stored branch that the node goes over to on its way, if
/// there is one, leads on to the end of the chain.
pub open spec fn keeps_to_chain(d: Delivery) -> bool {
    forall|i: int|
        0 < i <= d.sent.len() && undisturbed(d, i - 1) ==> match winner(
            #[trigger] along(d, i),
            d.verified,
        ) {
            Some(x) => leads_on(d, known_branch(along(d, i).blocks, x)->0),
            None => true,
        }
}

// ---------------------------------------------------------------------------
// replayed chains
// ---------------------------------------------------------------------------

/// Appending the first `k` blocks and then the others is appending them all.
proof fn lemma_replay_split(
    s: StateModel,
    list: Seq<BlockModel>,
    reward: u64,
    verified: Set<ClaimModel>,
    k: int,
)
    requires
        replay(s, list, reward, verified) is Ok,
        0 <= k <= list.len(),
    ensures
        replay(s, list.take(k), reward, verified) is Ok,
        replay(s, list.take(k), reward, verified)->Ok_0.tip_height == s.tip_height + k,
        replay(
            replay(s, list.take(k), reward, verified)->Ok_0,
            list.skip(k),
            reward,
            verified,
        ) == replay(s, list, reward, verified),
    decreases k,
{
    if k == 0 {
        assert(list.take(0) =~= Seq::empty());
        assert(list.skip(0) =~= list);
    } else {
        let next = block_outcome(s, list[0], reward, verified)->Ok_0;
        let rest = list.drop_first();
        law_tip_carries_work(s, list[0], reward, verified);
        lemma_replay_split(next, rest, reward, verified, k - 1);
        assert(list.take(k)[0] == list[0]);
        assert(list.take(k).drop_first() =~= rest.take(k - 1));
        assert(list.skip(k) =~= rest.skip(k - 1));
    }
}

/// Appending one block more.
proof fn lemma_replay_push(
    s: StateModel,
    list: Seq<BlockModel>,
    b: BlockModel,
    reward: u64,
    verified: Set<ClaimModel>,
)
    requires
        replay(s, list.push(b), reward, verified) is Ok,
    ensures
        replay(s, list, reward, verified) is Ok,
        block_outcome(replay(s, list, reward, verified)->Ok_0, b, reward, verified) == replay(
            s,
            list.push(b),
            reward,
            verified,
        ),
{
    let all = list.push(b);
    lemma_replay_split(s, all, reward, verified, list.len() as int);
    let last = all.skip(list.len() as int);
    assert(all.take(list.len() as int) =~= list);
    assert(last.drop_first() =~= Seq::empty());
    assert(last[0] == b);
    reveal_with_fuel(replay, 2);
}

/// Blocks that can be appended one after the other name each the one before.
proof fn lemma_replay_links(
    s: StateModel,
    list: Seq<BlockModel>,
    reward: u64,
    verified: Set<ClaimModel>,
    t: int,
)
    requires
        replay(s, list, reward, verified) is Ok,
        0 <= t < list.len(),
    ensures
        t == 0 ==> list[t].prev_hash == s.tip_hash,
        t > 0 ==> list[t].prev_hash == block_hash(list[t - 1]),
    decreases t,
{
    let next = block_outcome(s, list[0], reward, verified)->Ok_0;
    law_tip_carries_work(s, list[0], reward, verified);
    if t > 0 {
        lemma_replay_links(next, list.drop_first(), reward, verified, t - 1);
        assert(list.drop_first()[t - 1] == list[t]);
        if t > 1 {
            assert(list.drop_first()[t - 2] == list[t - 1]);
        }
    }
}

/// The first blocks of the chain, if there are any, are linked.
proof fn lemma_chain_is_linked(d: Delivery, end: StateModel, h: int)
    requires
        on_the_way(d, end),
        0 < h <= d.list.len(),
    ensures
        linked(d.list.take(h)),
{
    let s = d.list.take(h);
    lemma_replay_links(start(d), d.list, d.node.reward, d.verified, 0);
    assert forall|i: int, j: int| 0 <= i && j == i + 1 && j < s.len() implies (
    #[trigger] s[j]).prev_hash == block_hash(#[trigger] s[i]) by {
        lemma_replay_links(start(d), d.list, d.node.reward, d.verified, j);
    }
}

/// Where a node stands that has the first `h` blocks, and what the next is.
proof fn lemma_stands(d: Delivery, end: StateModel, m: NodeModel, h: int)
    requires
        on_the_way(d, end),
        stands_at(d, m, h),
    ensures
        m.chain.tip_height == h,
        h == 0 ==> m.chain.tip_hash.len() == 0,
        h > 0 ==> m.chain.tip_hash == block_hash(d.list[h - 1]),
        h == d.list.len() ==> m.chain == end,
        h < d.list.len() ==> {
            &&& d.list[h].height == h + 1
            &&& d.list[h].prev_hash == m.chain.tip_hash
            &&& block_outcome(m.chain, d.list[h], m.reward, d.verified) matches Ok(next)
            &&& stands_at(d, (NodeModel { chain: next, ..m }), h + 1)
        },
{
    let reward = d.node.reward;
    lemma_replay_split(start(d), d.list, reward, d.verified, h);
    if h > 0 {
        lemma_replay_tip(start(d), d.list.take(h), reward, d.verified);
        assert(d.list.take(h).last() == d.list[h - 1]);
    } else {
        assert(d.list.take(0) =~= Seq::empty());
    }
    if h == d.list.len() {
        assert(d.list.take(h) =~= d.list);
    } else {
        let b = d.list[h];
        lemma_replay_split(start(d), d.list, reward, d.verified, h + 1);
        assert(d.list.take(h + 1) =~= d.list.take(h).push(b));
        lemma_replay_push(start(d), d.list.take(h), b, reward, d.verified);
        lemma_replay_heights(start(d), d.list, reward, d.verified, h);
        law_tip_carries_work(m.chain, b, reward, d.verified);
    }
}

// ---------------------------------------------------------------------------
// one block
// ---------------------------------------------------------------------------

proof fn lemma_reached(list: Seq<BlockModel>, k: int, sent: Seq<BlockModel>, i: int)
    requires
        0 <= k <= list.len(),
        0 <= i,
    ensures
        k <= reached(list, k, sent, i) <= list.len(),
    decreases i,
{
    if i > 0 {
        lemma_reached(list, k, sent, i - 1);
    }
}

/// What has come is not lost.
proof fn lemma_come_grows(d: Delivery, i: int, j: int)
    requires
        0 <= i <= j <= d.sent.len(),
    ensures
        come(d, i).subset_of(come(d, j)),
        i < j ==> come(d, j).contains(d.sent[i]),
{
    assert forall|x: BlockModel| come(d, i).contains(x) implies come(d, j).contains(x) by {
        if d.sent.take(i).contains(x) {
            let t = choose|t: int| 0 <= t < d.sent.take(i).len() && d.sent.take(i)[t] == x;
            assert(d.sent.take(j)[t] == x);
        }
    }
    if i < j {
        assert(d.sent.take(j)[i] == d.sent[i]);
    }
}

/// Whether a node stores only blocks that have come.
spec fn stores_come(d: Delivery, m: NodeModel, i: int) -> bool {
    forall|t: int| 0 <= t < m.blocks.len() ==> come(d, i).contains(#[trigger] m.blocks[t])
}

/// A branch that is fully known to a node is a branch of what has come.
proof fn lemma_known_has_come(d: Delivery, m: NodeModel, i: int, y: BlockModel)
    requires
        stores_come(d, m, i),
        0 <= i <= d.sent.len(),
        known_branch(m.blocks, y) is Some,
    ensures
        branch_to(come(d, i), known_branch(m.blocks, y)->0, y),
        branch_to(come(d, d.sent.len() as int), known_branch(m.blocks, y)->0, y),
{
    let s = known_branch(m.blocks, y)->0;
    law_found_branch_is_linked(m.blocks, y, m.blocks.len());
    lemma_come_grows(d, i, d.sent.len() as int);
    assert forall|t: int| 0 <= t < s.len() - 1 implies come(d, i).contains(#[trigger] s[t]) by {
        assert(m.blocks.contains(s[t]));
        let u = choose|u: int| 0 <= u < m.blocks.len() && m.blocks[u] == s[t];
        assert(come(d, i).contains(m.blocks[u]));
    }
}

/// A block that is hopeless cannot win.
proof fn lemma_hopeless(d: Delivery, m: NodeModel, i: int, y: BlockModel)
    requires
        stores_come(d, m, i),
        0 <= i <= d.sent.len(),
        m.reward == d.node.reward,
        m.chain.difficulty == d.node.chain.difficulty,
        hopeless(d, y),
    ensures
        !can_win(m, y, d.verified),
{
    if known_branch(m.blocks, y) is Some {
        lemma_known_has_come(d, m, i, y);
    }
}

/// The store grows by a block that comes.
proof fn lemma_store_comes(d: Delivery, m: NodeModel, i: int, b: BlockModel)
    requires
        stores_come(d, m, i),
        0 <= i < d.sent.len(),
        b == d.sent[i],
    ensures
        stores_come(d, m, i + 1),
        stores_come(d, (NodeModel { blocks: m.blocks.push(b), ..m }), i + 1),
{
    lemma_come_grows(d, i, i + 1);
    let n = NodeModel { blocks: m.blocks.push(b), ..m };
    assert forall|t: int| 0 <= t < n.blocks.len() implies come(d, i + 1).contains(
        #[trigger] n.blocks[t],
    ) by {
        if t < m.blocks.len() {
            assert(n.blocks[t] == m.blocks[t]);
        }
    }
}

/// A block beside the chain is dropped or stored, and the chain state stays.
proof fn lemma_beside(d: Delivery, m: NodeModel, i: int)
    requires
        stores_come(d, m, i),
        0 <= i < d.sent.len(),
        stays_beside(d, i),
        reached(d.list, d.k, d.sent, i) <= m.chain.tip_height,
        d.sent[i].height > m.chain.tip_height ==> d.sent[i].prev_hash != m.chain.tip_hash,
    ensures
        taken_up(m, d.sent[i], d.verified) matches Ok(next) && {
            &&& next == m || next == (NodeModel { blocks: m.blocks.push(d.sent[i]), ..m })
            &&& stores_come(d, next, i + 1)
        },
{
    let b = d.sent[i];
    lemma_store_comes(d, m, i, b);
    if b.height > m.chain.tip_height {
        if known_branch(m.blocks, b) is Some {
            lemma_known_has_come(d, m, i, b);
        }
    }
}

/// A block whose ancestors have not come does not stand on the end of a branch
/// that has.
proof fn lemma_not_on_branch(d: Delivery, i: int, a: Seq<BlockModel>, y: BlockModel)
    requires
        unconnected(come(d, i), y),
        linked(a),
        forall|t: int| 0 <= t < a.len() ==> come(d, i).contains(#[trigger] a[t]),
    ensures
        y.prev_hash != block_hash(a.last()),
{
    if y.prev_hash == block_hash(a.last()) {
        let s = a.push(y);
        assert forall|p: int, q: int| 0 <= p && q == p + 1 && q < s.len() implies (
        #[trigger] s[q]).prev_hash == block_hash(#[trigger] s[p]) by {
            if q < a.len() {
                assert(a[q].prev_hash == block_hash(a[p]));
            } else {
                assert(s[p] == a.last());
            }
        }
        assert(s[0] == a[0]);
        assert forall|t: int| 0 <= t < s.len() - 1 implies come(d, i).contains(
            #[trigger] s[t],
        ) by {
            assert(s[t] == a[t]);
        }
        assert(branch_to(come(d, i), s, y));
    }
}

/// A block whose ancestors have not come names an ancestor.
proof fn lemma_not_first(d: Delivery, i: int, y: BlockModel)
    requires
        unconnected(come(d, i), y),
    ensures
        y.prev_hash.len() > 0,
{
    if y.prev_hash.len() == 0 {
        let s = seq![y];
        assert(branch_to(come(d, i), s, y));
    }
}

/// Delivering blocks from the `i`th on starts with that block.
proof fn lemma_delivered_first(d: Delivery, n: NodeModel, i: int, next: NodeModel)
    requires
        0 <= i < d.sent.len(),
        incoming_outcome(n, d.sent[i], d.verified) == Ok::<NodeModel, NodeError>(next),
    ensures
        delivered(n, d.sent.skip(i), d.verified) == delivered(
            next,
            d.sent.skip(i + 1),
            d.verified,
        ),
        applied_count(n, d.sent.skip(i), d.verified) == applied_count(
            next,
            d.sent.skip(i + 1),
            d.verified,
        ) + (if next.chain == n.chain {
            0int
        } else {
            1
        }),
{
    assert(d.sent.skip(i)[0] == d.sent[i]);
    assert(d.sent.skip(i).drop_first() =~= d.sent.skip(i + 1));
}

// ---------------------------------------------------------------------------
// with nothing to go over to
// ---------------------------------------------------------------------------

/// Whether no stored block above the tip is able to win, now or later.
pub open spec fn calm(d: Delivery, m: NodeModel) -> bool {
    forall|t: int|
        0 <= t < m.blocks.len() && (#[trigger] m.blocks[t]).height > m.chain.tip_height
            ==> hopeless(d, m.blocks[t])
}

proof fn lemma_calm(d: Delivery, m: NodeModel, i: int)
    requires
        calm(d, m),
        stores_come(d, m, i),
        0 <= i <= d.sent.len(),
        m.reward == d.node.reward,
        m.chain.difficulty == d.node.chain.difficulty,
    ensures
        winner(m, d.verified) is None,
        on_longest(m, d.verified) == m,
        forall|t: int|
            0 <= t < m.blocks.len() && can_win(m, #[trigger] m.blocks[t], d.verified)
                ==> m.blocks[t].height <= m.chain.tip_height,
{
    lemma_on_longest(m, d.verified);
    assert forall|t: int|
        0 <= t < m.blocks.len() && can_win(m, #[trigger] m.blocks[t], d.verified) implies
        m.blocks[t].height <= m.chain.tip_height by {
        if m.blocks[t].height > m.chain.tip_height {
            lemma_hopeless(d, m, i, m.blocks[t]);
        }
    }
    if winner(m, d.verified) is Some {
        let x = winner(m, d.verified)->0;
        let t = choose|t: int| 0 <= t < m.blocks.len() && m.blocks[t] == x;
        assert(can_win(m, m.blocks[t], d.verified));
    }
}

/// A calm node stays calm when it takes up a block beside the chain.
proof fn lemma_stays_calm(d: Delivery, m: NodeModel, i: int)
    requires
        calm(d, m),
        stores_come(d, m, i),
        0 <= i < d.sent.len(),
        m.reward == d.node.reward,
        m.chain.difficulty == d.node.chain.difficulty,
        stays_beside(d, i),
        reached(d.list, d.k, d.sent, i) <= m.chain.tip_height,
        d.sent[i].height > m.chain.tip_height ==> d.sent[i].prev_hash != m.chain.tip_hash,
    ensures
        incoming_outcome(m, d.sent[i], d.verified) == taken_up(m, d.sent[i], d.verified),
        incoming_outcome(m, d.sent[i], d.verified) matches Ok(next) && {
            &&& next == m || next == (NodeModel { blocks: m.blocks.push(d.sent[i]), ..m })
            &&& calm(d, next)
            &&& stores_come(d, next, i + 1)
        },
{
    let b = d.sent[i];
    lemma_beside(d, m, i);
    let next = taken_up(m, b, d.verified)->Ok_0;
    assert forall|t: int|
        0 <= t < next.blocks.len() && (#[trigger] next.blocks[t]).height > next.chain.tip_height
        implies hopeless(d, next.blocks[t]) by {
        if t < m.blocks.len() {
            assert(next.blocks[t] == m.blocks[t]);
        }
    }
    lemma_calm(d, next, i + 1);
}

/// A calm node that takes up the next block of the chain extends its tip.
proof fn lemma_calm_extends(d: Delivery, end: StateModel, m: NodeModel, h: int, i: int)
    requires
        on_the_way(d, end),
        calm(d, m),
        stores_come(d, m, i),
        stands_at(d, m, h),
        0 <= i < d.sent.len(),
        h < d.list.len(),
        d.sent[i] == d.list[h],
    ensures
        incoming_outcome(m, d.sent[i], d.verified) == taken_up(m, d.sent[i], d.verified),
        incoming_outcome(m, d.sent[i], d.verified) matches Ok(next) && {
            &&& calm(d, next)
            &&& stores_come(d, next, i + 1)
            &&& stands_at(d, next, h + 1)
            &&& next.chain != m.chain
        },
{
    let b = d.sent[i];
    lemma_stands(d, end, m, h);
    let s = block_outcome(m.chain, b, m.reward, d.verified)->Ok_0;
    let grown = NodeModel { blocks: m.blocks.push(b), ..m };
    let next = NodeModel { chain: s, ..grown };
    law_tip_carries_work(m.chain, b, m.reward, d.verified);
    lemma_store_comes(d, m, i, b);
    assert forall|t: int| 0 <= t < next.blocks.len() implies come(d, i + 1).contains(
        #[trigger] next.blocks[t],
    ) by {
        assert(come(d, i + 1).contains(grown.blocks[t]));
    }
    assert forall|t: int|
        0 <= t < next.blocks.len() && (#[trigger] next.blocks[t]).height > next.chain.tip_height
        implies hopeless(d, next.blocks[t]) by {
        if t < m.blocks.len() {
            assert(next.blocks[t] == m.blocks[t]);
        }
    }
    assert(taken_up(m, b, d.verified) == Ok::<NodeModel, NodeError>(next));
    lemma_calm(d, next, i + 1);
}

/// Whether the first `h` blocks of the chain have come.
spec fn chain_has_come(d: Delivery, h: int, i: int) -> bool {
    forall|t: int| 0 <= t < h ==> come(d, i).contains(#[trigger] d.list[t])
}

/// A block beside the chain does not stand on the tip of a node on the chain.
proof fn lemma_not_on_tip(d: Delivery, end: StateModel, m: NodeModel, h: int, i: int)
    requires
        on_the_way(d, end),
        stands_at(d, m, h),
        0 <= i < d.sent.len(),
        stays_beside(d, i),
        reached(d.list, d.k, d.sent, i) <= h,
        reached(d.list, d.k, d.sent, i) < h ==> chain_has_come(d, h, i),
    ensures
        d.sent[i].height > h ==> d.sent[i].prev_hash != m.chain.tip_hash,
{
    let b = d.sent[i];
    lemma_stands(d, end, m, h);
    if b.height > h {
        if h == 0 {
            lemma_not_first(d, i, b);
        } else if reached(d.list, d.k, d.sent, i) < h {
            let a = d.list.take(h);
            lemma_chain_is_linked(d, end, h);
            assert forall|t: int| 0 <= t < a.len() implies come(d, i).contains(
                #[trigger] a[t],
            ) by {
                assert(come(d, i).contains(d.list[t]));
            }
            lemma_not_on_branch(d, i, a, b);
        }
    }
}

/// The next block of the chain changes nothing where the node is ahead.
proof fn lemma_behind_is_dropped(d: Delivery, end: StateModel, m: NodeModel, h: int, i: int)
    requires
        on_the_way(d, end),
        calm(d, m),
        stores_come(d, m, i),
        stands_at(d, m, h),
        0 <= i < d.sent.len(),
        is_next(d.list, d.k, d.sent, i),
        0 <= reached(d.list, d.k, d.sent, i) < h,
    ensures
        incoming_outcome(m, d.sent[i], d.verified) == Ok::<NodeModel, NodeError>(m),
        stores_come(d, m, i + 1),
{
    let c = reached(d.list, d.k, d.sent, i);
    lemma_stands(d, end, m, h);
    lemma_replay_heights(start(d), d.list, d.node.reward, d.verified, c);
    lemma_calm(d, m, i);
    law_old_block_changes_nothing(m, d.sent[i], d.verified);
    lemma_store_comes(d, m, i, d.sent[i]);
}

/// A calm node on the chain, at least as far as the blocks that have come bring
/// it, ends on the tip of the chain.
#[verifier::rlimit(20)]
proof fn lemma_calm_node_arrives(d: Delivery, end: StateModel, m: NodeModel, h: int, i: int)
    requires
        on_the_way(d, end),
        carries_chain(d),
        calm(d, m),
        stores_come(d, m, i),
        stands_at(d, m, h),
        0 <= i <= d.sent.len(),
        reached(d.list, d.k, d.sent, i) <= h,
        reached(d.list, d.k, d.sent, i) < h ==> chain_has_come(d, h, i),
    ensures
        delivered(m, d.sent.skip(i), d.verified).0.chain == end,
        delivered(m, d.sent.skip(i), d.verified).1 is None,
    decreases d.sent.len() - i,
{
    let c = reached(d.list, d.k, d.sent, i);
    lemma_reached(d.list, d.k, d.sent, i);
    lemma_stands(d, end, m, h);
    if i < d.sent.len() {
        let b = d.sent[i];
        lemma_come_grows(d, i, i + 1);
        if c < h {
            assert(chain_has_come(d, h, i + 1));
        }
        if is_next(d.list, d.k, d.sent, i) && c == h {
            lemma_calm_extends(d, end, m, h, i);
            let next = incoming_outcome(m, b, d.verified)->Ok_0;
            lemma_delivered_first(d, m, i, next);
            lemma_calm_node_arrives(d, end, next, h + 1, i + 1);
        } else if is_next(d.list, d.k, d.sent, i) {
            lemma_behind_is_dropped(d, end, m, h, i);
            lemma_delivered_first(d, m, i, m);
            lemma_calm_node_arrives(d, end, m, h, i + 1);
        } else {
            assert(stays_beside(d, i));
            lemma_not_on_tip(d, end, m, h, i);
            lemma_stays_calm(d, m, i);
            let next = incoming_outcome(m, b, d.verified)->Ok_0;
            lemma_delivered_first(d, m, i, next);
            lemma_calm_node_arrives(d, end, next, h, i + 1);
        }
    }
}

// ---------------------------------------------------------------------------
// past a sibling
// ---------------------------------------------------------------------------

/// The block found for a hash is the first stored one that has it.
proof fn lemma_first_name(store: Seq<BlockModel>, j: int)
    requires
        0 <= j < store.len(),
        forall|i: int| 0 <= i < j ==> block_hash(#[trigger] store[i]) != block_hash(store[j]),
    ensures
        block_named(store, block_hash(store[j])) == Some(store[j]),
    decreases j,
{
    if j > 0 {
        let rest = store.drop_first();
        assert(block_hash(store[0]) != block_hash(store[j]));
        assert(rest[j - 1] == store[j]);
        assert forall|i: int| 0 <= i < j - 1 implies block_hash(#[trigger] rest[i]) != block_hash(
            rest[j - 1],
        ) by {
            assert(rest[i] == store[i + 1]);
        }
        lemma_first_name(rest, j - 1);
    }
}

/// The branch of a block of the chain, in a store where the hashes of the
/// blocks below it name them, is the chain up to that block.
proof fn lemma_chain_is_found(
    d: Delivery,
    end: StateModel,
    store: Seq<BlockModel>,
    t: int,
    hops: nat,
)
    requires
        on_the_way(d, end),
        0 <= t < d.list.len(),
        t <= hops,
        forall|j: int|
            0 <= j < t ==> block_hash(#[trigger] d.list[j]).len() > 0 && block_named(
                store,
                block_hash(d.list[j]),
            ) == Some(d.list[j]),
    ensures
        ancestry(store, d.list[t], hops) == Some(d.list.take(t + 1)),
    decreases t,
{
    lemma_replay_links(start(d), d.list, d.node.reward, d.verified, t);
    if t == 0 {
        assert(d.list.take(1) =~= seq![d.list[0]]);
    } else {
        assert(block_hash(d.list[t - 1]).len() > 0);
        lemma_chain_is_found(d, end, store, t - 1, (hops - 1) as nat);
        assert(d.list.take(t + 1) =~= d.list.take(t).push(d.list[t]));
    }
}

/// Whether a branch parts from the chain by its last block only, where the
/// chain goes on.
spec fn parts_late(d: Delivery, branch: Seq<BlockModel>) -> bool {
    let j = branch.len() - 1;
    &&& linked(branch)
    &&& branch.len() < d.list.len()
    &&& branch.drop_last() == d.list.take(j)
    &&& hashes_differ(branch.push(d.list[j]))
    &&& forall|i: int|
        0 <= i < d.sent.len() && block_hash(#[trigger] d.sent[i]) == block_hash(d.list[j])
            ==> d.sent[i] == d.list[j]
}

/// Whether a calm node stands on such a branch, with `i` of the sent blocks
/// taken up.
spec fn stands_beside(d: Delivery, m: NodeModel, branch: Seq<BlockModel>, i: int) -> bool {
    let c = reached(d.list, d.k, d.sent, i);
    &&& parts_late(d, branch)
    &&& calm(d, m)
    &&& stores_come(d, m, i)
    &&& m.reward == d.node.reward
    &&& m.chain.difficulty == d.node.chain.difficulty
    &&& m.chain.tip_height == branch.len()
    &&& m.chain.tip_hash == block_hash(branch.last())
    &&& branch.len() <= m.blocks.len()
    &&& forall|t: int| 0 <= t < branch.len() ==> #[trigger] m.blocks[t] == branch[t]
    &&& forall|t: int|
        branch.len() <= t < m.blocks.len() ==> d.sent.contains(#[trigger] m.blocks[t])
    &&& c <= branch.len()
    &&& c == branch.len() ==> m.blocks.contains(d.list[c - 1])
}

/// The blocks of the branch have come.
proof fn lemma_branch_has_come(d: Delivery, m: NodeModel, branch: Seq<BlockModel>, i: int)
    requires
        stands_beside(d, m, branch, i),
    ensures
        forall|t: int| 0 <= t < branch.len() ==> come(d, i).contains(#[trigger] branch[t]),
{
    assert forall|t: int| 0 <= t < branch.len() implies come(d, i).contains(
        #[trigger] branch[t],
    ) by {
        assert(m.blocks[t] == branch[t]);
    }
}

/// A stored block with the hash of the block that the branch missed is that
/// block.
proof fn lemma_sibling_name(d: Delivery, m: NodeModel, branch: Seq<BlockModel>, i: int, q: int)
    requires
        stands_beside(d, m, branch, i),
        0 <= q < m.blocks.len(),
        block_hash(m.blocks[q]) == block_hash(d.list[branch.len() - 1]),
    ensures
        m.blocks[q] == d.list[branch.len() - 1],
{
    let all = branch.push(d.list[branch.len() - 1]);
    if q < branch.len() {
        assert(m.blocks[q] == branch[q]);
        assert(all[q] == branch[q]);
        assert(all[branch.len() as int] == d.list[branch.len() - 1]);
    } else {
        assert(d.sent.contains(m.blocks[q]));
        let u = choose|u: int| 0 <= u < d.sent.len() && d.sent[u] == m.blocks[q];
        assert(d.sent[u] == m.blocks[q]);
    }
}

/// The node stays beside the chain with one block more in its store, or none.
proof fn lemma_stays_on_branch(
    d: Delivery,
    m: NodeModel,
    next: NodeModel,
    branch: Seq<BlockModel>,
    i: int,
)
    requires
        stands_beside(d, m, branch, i),
        0 <= i < d.sent.len(),
        next == m || next == (NodeModel { blocks: m.blocks.push(d.sent[i]), ..m }),
        calm(d, next),
        stores_come(d, next, i + 1),
        reached(d.list, d.k, d.sent, i + 1) <= branch.len(),
        reached(d.list, d.k, d.sent, i + 1) == branch.len() ==> next.blocks.contains(
            d.list[branch.len() - 1],
        ),
    ensures
        stands_beside(d, next, branch, i + 1),
{
    assert forall|t: int| 0 <= t < branch.len() implies #[trigger] next.blocks[t] == branch[t] by {
        assert(m.blocks[t] == branch[t]);
    }
    assert forall|t: int| branch.len() <= t < next.blocks.len() implies d.sent.contains(
        #[trigger] next.blocks[t],
    ) by {
        if t < m.blocks.len() {
            assert(next.blocks[t] == m.blocks[t]);
        } else {
            assert(next.blocks[t] == d.sent[i]);
        }
    }
}

/// The block that the branch missed is stashed.
proof fn lemma_sibling_is_stashed(
    d: Delivery,
    end: StateModel,
    m: NodeModel,
    branch: Seq<BlockModel>,
    i: int,
)
    requires
        on_the_way(d, end),
        stands_beside(d, m, branch, i),
        0 <= i < d.sent.len(),
        reached(d.list, d.k, d.sent, i) == branch.len() - 1,
        d.sent[i] == d.list[branch.len() - 1],
    ensures
        incoming_outcome(m, d.sent[i], d.verified) matches Ok(next) && stands_beside(
            d,
            next,
            branch,
            i + 1,
        ),
{
    let j = branch.len() - 1;
    let b = d.sent[i];
    let all = branch.push(d.list[j]);
    let next = NodeModel { blocks: stashed(m.blocks, b), ..m };
    lemma_replay_heights(start(d), d.list, d.node.reward, d.verified, j);
    assert(all[j] == branch.last() && all[j + 1] == b);
    assert(taken_up(m, b, d.verified) == Ok::<NodeModel, NodeError>(next));
    lemma_store_comes(d, m, i, b);
    if holds_hash(m.blocks, block_hash(b)) {
        let q = choose|q: int|
            0 <= q < m.blocks.len() && block_hash(#[trigger] m.blocks[q]) == block_hash(b);
        lemma_sibling_name(d, m, branch, i, q);
        assert(next.blocks[q] == b);
    } else {
        assert(next.blocks[m.blocks.len() as int] == b);
    }
    assert forall|t: int|
        0 <= t < next.blocks.len() && (#[trigger] next.blocks[t]).height > next.chain.tip_height
        implies hopeless(d, next.blocks[t]) by {
        if t < m.blocks.len() {
            assert(next.blocks[t] == m.blocks[t]);
        }
    }
    lemma_calm(d, next, i + 1);
    lemma_stays_on_branch(d, m, next, branch, i);
}

/// The block above it brings the node back to the chain.
#[verifier::rlimit(20)]
proof fn lemma_successor_wins(
    d: Delivery,
    end: StateModel,
    m: NodeModel,
    branch: Seq<BlockModel>,
    i: int,
)
    requires
        on_the_way(d, end),
        stands_beside(d, m, branch, i),
        0 <= i < d.sent.len(),
        reached(d.list, d.k, d.sent, i) == branch.len(),
        d.sent[i] == d.list[branch.len() as int],
    ensures
        incoming_outcome(m, d.sent[i], d.verified) matches Ok(next) && {
            &&& stands_at(d, next, branch.len() + 1int)
            &&& calm(d, next)
            &&& stores_come(d, next, i + 1)
        },
{
    let j = branch.len() - 1;
    let b = d.sent[i];
    let all = branch.push(d.list[j]);
    let front = d.list.take(j + 2);
    lemma_replay_heights(start(d), d.list, d.node.reward, d.verified, j + 1);
    lemma_replay_links(start(d), d.list, d.node.reward, d.verified, j + 1);
    lemma_replay_split(start(d), d.list, d.node.reward, d.verified, j + 2);
    assert(all[j] == branch.last() && all[j + 1] == d.list[j]);
    assert forall|t: int| 0 <= t < j + 1 implies block_hash(#[trigger] d.list[t]).len() > 0
        && block_named(m.blocks, block_hash(d.list[t])) == Some(d.list[t]) by {
        if t < j {
            assert(branch.drop_last()[t] == d.list.take(j)[t]);
            assert(m.blocks[t] == branch[t]);
            assert(all[t] == branch[t]);
            assert forall|u: int| 0 <= u < t implies block_hash(#[trigger] m.blocks[u])
                != block_hash(m.blocks[t]) by {
                assert(m.blocks[u] == branch[u]);
                assert(all[u] == branch[u]);
            }
            lemma_first_name(m.blocks, t);
        } else {
            let q = choose|q: int| 0 <= q < m.blocks.len() && m.blocks[q] == d.list[j];
            assert(block_hash(m.blocks[q]) == block_hash(d.list[j]));
            lemma_block_named(m.blocks, block_hash(d.list[j]));
            let x = block_named(m.blocks, block_hash(d.list[j]))->0;
            let u = choose|u: int| 0 <= u < m.blocks.len() && m.blocks[u] == x;
            lemma_sibling_name(d, m, branch, i, u);
            assert(block_hash(all[j + 1]).len() > 0);
        }
    }
    lemma_chain_is_found(d, end, m.blocks, j + 1, m.blocks.len());
    assert(can_win(m, b, d.verified));
    law_taller_branch_is_taken(m, b, d.verified);
    law_tip_only_gets_taller(m, b, d.verified);
    let up = taken_up(m, b, d.verified)->Ok_0;
    let next = incoming_outcome(m, b, d.verified)->Ok_0;
    assert(up == (NodeModel { blocks: m.blocks.push(b), ..m }));
    lemma_store_comes(d, m, i, b);
    assert forall|t: int|
        0 <= t < m.blocks.len() && can_win(up, #[trigger] m.blocks[t], d.verified) implies
        m.blocks[t].height <= b.height by {
        if m.blocks[t].height > b.height {
            lemma_hopeless(d, up, i + 1, m.blocks[t]);
        }
    }
    assert(next.blocks == front);
    assert forall|t: int| 0 <= t < next.blocks.len() implies come(d, i + 1).contains(
        #[trigger] next.blocks[t],
    ) && next.blocks[t].height <= j + 2 by {
        lemma_replay_heights(start(d), d.list, d.node.reward, d.verified, t);
        lemma_come_grows(d, i, i + 1);
        assert(next.blocks[t] == d.list[t]);
        if t <= j {
            assert(block_named(m.blocks, block_hash(d.list[t])) == Some(d.list[t]));
            lemma_block_named(m.blocks, block_hash(d.list[t]));
            let u = choose|u: int| 0 <= u < m.blocks.len() && m.blocks[u] == d.list[t];
            assert(come(d, i).contains(m.blocks[u]));
        }
    }
    lemma_stands(d, end, next, j + 2);
}

/// A node that has gone over to a branch which parts late from the chain ends
/// on the tip of the chain.
#[verifier::rlimit(20)]
proof fn lemma_beside_node_arrives(
    d: Delivery,
    end: StateModel,
    m: NodeModel,
    branch: Seq<BlockModel>,
    i: int,
)
    requires
        on_the_way(d, end),
        carries_chain(d),
        stands_beside(d, m, branch, i),
        0 <= i <= d.sent.len(),
    ensures
        delivered(m, d.sent.skip(i), d.verified).0.chain == end,
        delivered(m, d.sent.skip(i), d.verified).1 is None,
    decreases d.sent.len() - i,
{
    let c = reached(d.list, d.k, d.sent, i);
    lemma_reached(d.list, d.k, d.sent, i);
    if i < d.sent.len() {
        let b = d.sent[i];
        if is_next(d.list, d.k, d.sent, i) && c == branch.len() {
            lemma_successor_wins(d, end, m, branch, i);
            let next = incoming_outcome(m, b, d.verified)->Ok_0;
            lemma_delivered_first(d, m, i, next);
            lemma_calm_node_arrives(d, end, next, c + 1, i + 1);
        } else if is_next(d.list, d.k, d.sent, i) && c == branch.len() - 1 {
            lemma_sibling_is_stashed(d, end, m, branch, i);
            let next = incoming_outcome(m, b, d.verified)->Ok_0;
            lemma_delivered_first(d, m, i, next);
            lemma_beside_node_arrives(d, end, next, branch, i + 1);
        } else if is_next(d.list, d.k, d.sent, i) {
            lemma_replay_heights(start(d), d.list, d.node.reward, d.verified, c);
            lemma_calm(d, m, i);
            law_old_block_changes_nothing(m, b, d.verified);
            lemma_store_comes(d, m, i, b);
            lemma_stays_on_branch(d, m, m, branch, i);
            lemma_delivered_first(d, m, i, m);
            lemma_beside_node_arrives(d, end, m, branch, i + 1);
        } else {
            assert(stays_beside(d, i));
            if b.height > m.chain.tip_height {
                lemma_branch_has_come(d, m, branch, i);
                lemma_not_on_branch(d, i, branch, b);
            }
            lemma_stays_calm(d, m, i);
            let next = incoming_outcome(m, b, d.verified)->Ok_0;
            if c == branch.len() {
                let q = choose|q: int| 0 <= q < m.blocks.len() && m.blocks[q] == d.list[c - 1];
                assert(next.blocks[q] == d.list[c - 1]);
            }
            lemma_stays_on_branch(d, m, next, branch, i);
            lemma_delivered_first(d, m, i, next);
            lemma_beside_node_arrives(d, end, next, branch, i + 1);
        }
    }
}

// ---------------------------------------------------------------------------
// the way
// ---------------------------------------------------------------------------

/// On its way the node stands on what has come of the chain.
proof fn lemma_along(d: Delivery, end: StateModel, i: int)
    requires
        on_the_way(d, end),
        carries_chain(d),
        0 <= i <= d.sent.len(),
    ensures
        stands_at(d, along(d, i), reached(d.list, d.k, d.sent, i)),
        stores_come(d, along(d, i), i),
        i < d.sent.len() ==> taken_up(along(d, i), d.sent[i], d.verified) == Ok::<
            NodeModel,
            NodeError,
        >(along(d, i + 1)),
    decreases i,
{
    if i == 0 {
        assert forall|t: int| 0 <= t < d.node.blocks.len() implies come(d, 0).contains(
            #[trigger] d.node.blocks[t],
        ) by {
            assert(d.node.blocks.contains(d.node.blocks[t]));
        }
    } else {
        lemma_along(d, end, i - 1);
        lemma_along_step(d, end, i - 1);
    }
    if i < d.sent.len() {
        lemma_along_step(d, end, i);
    }
}

proof fn lemma_along_step(d: Delivery, end: StateModel, i: int)
    requires
        on_the_way(d, end),
        carries_chain(d),
        0 <= i < d.sent.len(),
        stands_at(d, along(d, i), reached(d.list, d.k, d.sent, i)),
        stores_come(d, along(d, i), i),
    ensures
        stands_at(d, along(d, i + 1), reached(d.list, d.k, d.sent, i + 1)),
        stores_come(d, along(d, i + 1), i + 1),
        taken_up(along(d, i), d.sent[i], d.verified) == Ok::<NodeModel, NodeError>(
            along(d, i + 1),
        ),
{
    let m = along(d, i);
    let b = d.sent[i];
    let c = reached(d.list, d.k, d.sent, i);
    lemma_stands(d, end, m, c);
    lemma_store_comes(d, m, i, b);
    if is_next(d.list, d.k, d.sent, i) {
        let grown = NodeModel { blocks: m.blocks.push(b), ..m };
        let next = along(d, i + 1);
        assert(next.blocks == grown.blocks);
        assert forall|t: int| 0 <= t < next.blocks.len() implies come(d, i + 1).contains(
            #[trigger] next.blocks[t],
        ) by {
            assert(come(d, i + 1).contains(grown.blocks[t]));
        }
    } else {
        assert(stays_beside(d, i));
        if b.height > c && c == 0 {
            lemma_not_first(d, i, b);
        }
        lemma_beside(d, m, i);
    }
}

/// From every block of the way the rest brings the node to the end.
#[verifier::rlimit(20)]
proof fn lemma_way_goes_on(d: Delivery, end: StateModel, i: int)
    requires
        on_the_way(d, end),
        carries_chain(d),
        keeps_to_chain(d),
        undisturbed(d, i),
        0 <= i <= d.sent.len(),
    ensures
        delivered(along(d, i), d.sent.skip(i), d.verified).0.chain == end,
        delivered(along(d, i), d.sent.skip(i), d.verified).1 is None,
        undisturbed(d, d.sent.len() as int) ==> {
            &&& delivered(along(d, i), d.sent.skip(i), d.verified).0 == along(
                d,
                d.sent.len() as int,
            )
            &&& applied_count(along(d, i), d.sent.skip(i), d.verified) == d.list.len() - reached(
                d.list,
                d.k,
                d.sent,
                i,
            )
        },
    decreases d.sent.len() - i,
{
    let at = along(d, i);
    lemma_along(d, end, i);
    lemma_stands(d, end, at, reached(d.list, d.k, d.sent, i));
    if i < d.sent.len() {
        let m = along(d, i + 1);
        let next = on_longest(m, d.verified);
        lemma_along(d, end, i + 1);
        lemma_stands(d, end, m, reached(d.list, d.k, d.sent, i + 1));
        lemma_on_longest(m, d.verified);
        lemma_delivered_first(d, at, i, next);
        if winner(m, d.verified) is Some {
            lemma_winner_leads_on(d, end, i + 1);
        } else {
            assert(undisturbed(d, i + 1)) by {
                assert forall|j: int| 0 < j <= i + 1 implies winner(
                    #[trigger] along(d, j),
                    d.verified,
                ) is None by {
                    if j < i + 1 {
                        assert(winner(along(d, j), d.verified) is None);
                    }
                }
            }
            lemma_way_goes_on(d, end, i + 1);
        }
    }
}

/// So does a stored branch that the node goes over to on the way.
proof fn lemma_winner_leads_on(d: Delivery, end: StateModel, i: int)
    requires
        on_the_way(d, end),
        carries_chain(d),
        keeps_to_chain(d),
        undisturbed(d, i - 1),
        0 < i <= d.sent.len(),
        winner(along(d, i), d.verified) is Some,
    ensures
        ({
            let next = on_longest(along(d, i), d.verified);
            &&& delivered(next, d.sent.skip(i), d.verified).0.chain == end
            &&& delivered(next, d.sent.skip(i), d.verified).1 is None
        }),
{
    let m = along(d, i);
    let c = reached(d.list, d.k, d.sent, i);
    let next = on_longest(m, d.verified);
    let h = next.blocks.len() as int;
    lemma_reached(d.list, d.k, d.sent, i);
    lemma_along(d, end, i);
    lemma_stands(d, end, m, c);
    lemma_on_longest(m, d.verified);
    lemma_replay_heights(start(d), next.blocks, d.node.reward, d.verified, h - 1);
    assert(leads_on(d, next.blocks));
    assert forall|t: int| 0 <= t < next.blocks.len() implies come(d, i).contains(
        #[trigger] next.blocks[t],
    ) by {
        assert(m.blocks.contains(next.blocks[t]));
        let u = choose|u: int| 0 <= u < m.blocks.len() && m.blocks[u] == next.blocks[t];
        assert(come(d, i).contains(m.blocks[u]));
    }
    assert(calm(d, next));
    if h <= d.list.len() && next.blocks == d.list.take(h) {
        assert forall|t: int| 0 <= t < h implies come(d, i).contains(#[trigger] d.list[t]) by {
            assert(next.blocks[t] == d.list[t]);
        }
        lemma_calm_node_arrives(d, end, next, h, i);
    } else {
        assert(stands_beside(d, next, next.blocks, i));
        lemma_beside_node_arrives(d, end, next, next.blocks, i);
    }
}

/// A node that stands on a chain and is sent the rest of it, among blocks that
/// stay beside it, ends on the tip of the chain, as long as a stored branch
/// that it goes over to on the way leads on there. If it goes over to none, it
/// applies exactly the blocks of the chain, and takes up the others.
pub proof fn law_sent_chain_is_taken(d: Delivery, end: StateModel)
    requires
        on_the_way(d, end),
        carries_chain(d),
        keeps_to_chain(d),
    ensures
        delivered(d.node, d.sent, d.verified).0.chain == end,
        delivered(d.node, d.sent, d.verified).1 is None,
        undisturbed(d, d.sent.len() as int) ==> {
            &&& delivered(d.node, d.sent, d.verified).0 == along(d, d.sent.len() as int)
            &&& applied_count(d.node, d.sent, d.verified) == d.list.len() - d.k
        },
{
    assert(d.sent.skip(0) =~= d.sent);
    lemma_way_goes_on(d, end, 0);
}

/// A node whose stored blocks above the tip cannot win goes over to none of
/// them, so it keeps to the chain.
pub proof fn law_calm_node_keeps_to_chain(d: Delivery, end: StateModel)
    requires
        on_the_way(d, end),
        carries_chain(d),
        calm(d, d.node),
    ensures
        undisturbed(d, d.sent.len() as int),
        keeps_to_chain(d),
{
    assert forall|j: int| 0 < j <= d.sent.len() implies winner(
        #[trigger] along(d, j),
        d.verified,
    ) is None by {
        lemma_calm_along(d, end, j);
        lemma_along(d, end, j);
        lemma_calm(d, along(d, j), j);
    }
}

proof fn lemma_calm_along(d: Delivery, end: StateModel, i: int)
    requires
        on_the_way(d, end),
        carries_chain(d),
        calm(d, d.node),
        0 <= i <= d.sent.len(),
    ensures
        calm(d, along(d, i)),
    decreases i,
{
    if i > 0 {
        let m = along(d, i - 1);
        let c = reached(d.list, d.k, d.sent, i - 1);
        lemma_calm_along(d, end, i - 1);
        lemma_along(d, end, i - 1);
        lemma_stands(d, end, m, c);
        if is_next(d.list, d.k, d.sent, i - 1) {
            lemma_calm_extends(d, end, m, c, i - 1);
        } else {
            assert(stays_beside(d, i - 1));
            if d.sent[i - 1].height > c && c == 0 {
                lemma_not_first(d, i - 1, d.sent[i - 1]);
            }
            lemma_stays_calm(d, m, i - 1);
        }
    }
}

// ---------------------------------------------------------------------------
// a chain and nothing else
// ---------------------------------------------------------------------------

/// Of blocks whose heights run from one, those above `k` are those behind the
/// first `k`.
proof fn lemma_blocks_above(list: Seq<BlockModel>, k: u64, m: int)
    requires
        0 <= m <= list.len(),
        forall|i: int| 0 <= i < list.len() ==> (#[trigger] list[i]).height == i + 1,
    ensures
        blocks_above(list.take(m), k) == (if m <= k {
            Seq::empty()
        } else {
            list.subrange(k as int, m)
        }),
    decreases m,
{
    if m > 0 {
        lemma_blocks_above(list, k, m - 1);
        assert(list.take(m).drop_last() =~= list.take(m - 1));
        assert(list.take(m).last() == list[m - 1]);
        if m > k {
            if m - 1 == k {
                assert(list.subrange(k as int, m) =~= Seq::empty().push(list[m - 1]));
            } else {
                assert(list.subrange(k as int, m) =~= list.subrange(k as int, m - 1).push(
                    list[m - 1],
                ));
            }
        }
    } else {
        assert(list.take(0) =~= Seq::empty());
    }
}

proof fn lemma_rest_is_next(d: Delivery, i: int)
    requires
        0 <= d.k <= d.list.len(),
        d.sent == d.list.skip(d.k),
        0 <= i <= d.sent.len(),
    ensures
        reached(d.list, d.k, d.sent, i) == d.k + i,
        i < d.sent.len() ==> is_next(d.list, d.k, d.sent, i),
    decreases i,
{
    if i > 0 {
        lemma_rest_is_next(d, i - 1);
    }
}

/// The rest of a chain and nothing else carries the chain.
pub proof fn lemma_rest_carries_chain(d: Delivery, end: StateModel)
    requires
        on_the_way(d, end),
        d.sent == d.list.skip(d.k),
    ensures
        carries_chain(d),
        blocks_above(d.list, d.node.chain.tip_height) == d.sent,
{
    lemma_rest_is_next(d, d.sent.len() as int);
    assert forall|i: int| 0 <= i < d.sent.len() implies is_next(d.list, d.k, d.sent, i)
        || #[trigger] stays_beside(d, i) by {
        lemma_rest_is_next(d, i);
    }
    lemma_stands(d, end, d.node, d.k);
    assert forall|i: int| 0 <= i < d.list.len() implies (#[trigger] d.list[i]).height == i + 1 by {
        lemma_replay_heights(start(d), d.list, d.node.reward, d.verified, i);
    }
    lemma_blocks_above(d.list, d.node.chain.tip_height, d.list.len() as int);
    assert(d.list.take(d.list.len() as int) =~= d.list);
    assert(blocks_above(d.list, d.node.chain.tip_height) =~= d.sent);
}

proof fn lemma_rest_is_pushed(d: Delivery, end: StateModel, i: int)
    requires
        on_the_way(d, end),
        d.sent == d.list.skip(d.k),
        0 <= i <= d.sent.len(),
    ensures
        along(d, i) == (NodeModel {
            chain: along(d, i).chain,
            blocks: d.node.blocks + d.sent.take(i),
            ..d.node
        }),
    decreases i,
{
    if i == 0 {
        assert(d.node.blocks + d.sent.take(0) =~= d.node.blocks);
    } else {
        let c = reached(d.list, d.k, d.sent, i - 1);
        lemma_rest_is_pushed(d, end, i - 1);
        lemma_rest_carries_chain(d, end);
        lemma_rest_is_next(d, i - 1);
        lemma_along(d, end, i - 1);
        lemma_stands(d, end, along(d, i - 1), c);
        assert((d.node.blocks + d.sent.take(i - 1)).push(d.sent[i - 1]) =~= d.node.blocks
            + d.sent.take(i));
    }
}

/// A node that stands on a chain and is handed the blocks of it above its own
/// tip ends on the tip of the chain, as long as a stored branch that it goes
/// over to on the way leads on there. If it has stored no block above its tip,
/// it applies every one of the blocks and nothing else changes.
pub proof fn law_blocks_catch_a_node_up(d: Delivery, end: StateModel)
    requires
        on_the_way(d, end),
        d.sent == d.list.skip(d.k),
        none_above(d.node) || keeps_to_chain(d),
    ensures
        blocks_above(d.list, d.node.chain.tip_height) == d.sent,
        delivered(d.node, d.sent, d.verified).0.chain == end,
        delivered(d.node, d.sent, d.verified).1 is None,
        none_above(d.node) ==> {
            &&& delivered(d.node, d.sent, d.verified).0 == (NodeModel {
                chain: end,
                blocks: d.node.blocks + d.sent,
                ..d.node
            })
            &&& applied_count(d.node, d.sent, d.verified) == d.sent.len()
        },
{
    lemma_rest_carries_chain(d, end);
    if none_above(d.node) {
        law_calm_node_keeps_to_chain(d, end);
    }
    law_sent_chain_is_taken(d, end);
    if none_above(d.node) {
        lemma_rest_is_pushed(d, end, d.sent.len() as int);
        assert(d.sent.take(d.sent.len() as int) =~= d.sent);
    }
}

// ---------------------------------------------------------------------------
// a chain and a stash
// ---------------------------------------------------------------------------

/// Whether a store holds the chain in order, and every other block of it is not
/// above what stands before it of the chain, or has an ancestor that is found
/// neither before it nor at the node, and cannot win.
pub open spec fn holds_chain(d: Delivery, store: Seq<BlockModel>) -> bool {
    &&& reached(d.list, 0, store, store.len() as int) == d.list.len()
    &&& forall|q: int|
        0 <= q < store.len() ==> {
            ||| is_next(d.list, 0, store, q)
            ||| (#[trigger] store[q]).height <= reached(d.list, 0, store, q)
            ||| {
                &&& unconnected(d.node.blocks.to_set().union(store.take(q).to_set()), store[q])
                &&& hopeless(d, store[q])
            }
        }
}

/// What was sent keeps its place when more is sent.
proof fn lemma_reached_prefix(
    list: Seq<BlockModel>,
    k: int,
    sent: Seq<BlockModel>,
    more: Seq<BlockModel>,
    i: int,
)
    requires
        0 <= i <= sent.len() <= more.len(),
        forall|j: int| 0 <= j < i ==> #[trigger] sent[j] == more[j],
    ensures
        reached(list, k, sent, i) == reached(list, k, more, i),
    decreases i,
{
    if i > 0 {
        lemma_reached_prefix(list, k, sent, more, i - 1);
        assert(sent[i - 1] == more[i - 1]);
    }
}

/// The blocks of the chain that have been sent have come.
proof fn lemma_reached_has_come(d: Delivery, i: int, t: int)
    requires
        0 <= i <= d.sent.len(),
        d.k <= t < reached(d.list, d.k, d.sent, i),
    ensures
        come(d, i).contains(d.list[t]),
    decreases i,
{
    if i > 0 {
        lemma_come_grows(d, i - 1, i);
        if t < reached(d.list, d.k, d.sent, i - 1) {
            lemma_reached_has_come(d, i - 1, t);
        }
    }
}

/// A block that has no branch among some blocks has none among fewer.
proof fn lemma_fewer_connect(few: Set<BlockModel>, more: Set<BlockModel>, y: BlockModel)
    requires
        few.subset_of(more),
        unconnected(more, y),
    ensures
        unconnected(few, y),
{
    assert forall|s: Seq<BlockModel>| !#[trigger] branch_to(few, s, y) by {
        if branch_to(few, s, y) {
            assert(branch_to(more, s, y));
        }
    }
}

/// Whether a block of a list is the next of the chain, not above what stands
/// before it of the chain, or has an ancestor that has not come and cannot win.
spec fn fine(d: Delivery, sent: Seq<BlockModel>, i: int) -> bool {
    ||| is_next(d.list, d.k, sent, i)
    ||| sent[i].height <= reached(d.list, d.k, sent, i)
    ||| {
        &&& unconnected(d.node.blocks.to_set().union(sent.take(i).to_set()), sent[i])
        &&& hopeless(d, sent[i])
    }
}

/// The blocks above a height are stored blocks.
pub proof fn lemma_above_is_stored(store: Seq<BlockModel>, height: u64)
    ensures
        blocks_above(store, height).len() <= store.len(),
        forall|i: int|
            0 <= i < blocks_above(store, height).len() ==> store.contains(
                #[trigger] blocks_above(store, height)[i],
            ),
    decreases store.len(),
{
    if store.len() > 0 {
        let front = store.drop_last();
        let was = blocks_above(front, height);
        let now = blocks_above(store, height);
        lemma_above_is_stored(front, height);
        assert forall|i: int| 0 <= i < now.len() implies store.contains(#[trigger] now[i]) by {
            if i < was.len() {
                assert(now[i] == was[i]);
                let t = choose|t: int| 0 <= t < front.len() && front[t] == was[i];
                assert(store[t] == now[i]);
            } else {
                assert(store[store.len() - 1] == now[i]);
            }
        }
    }
}

/// One block more is sent.
proof fn lemma_sent_more(d: Delivery, was: Seq<BlockModel>, b: BlockModel, c: int)
    requires
        0 <= d.k <= d.list.len(),
        forall|i: int| 0 <= i < was.len() ==> #[trigger] fine(d, was, i),
        0 <= c <= reached(d.list, d.k, was, was.len() as int),
        forall|i: int| 0 <= i < d.list.len() ==> (#[trigger] d.list[i]).height == i + 1,
        (c < d.list.len() && b == d.list[c]) || b.height <= c || (unconnected(
            d.node.blocks.to_set().union(was.to_set()),
            b,
        ) && hopeless(d, b)),
    ensures
        forall|i: int| 0 <= i < was.len() + 1 ==> #[trigger] fine(d, was.push(b), i),
        reached(d.list, d.k, was.push(b), was.len() + 1int) >= (if c < d.list.len() && b
            == d.list[c] {
            c + 1
        } else {
            c
        }),
{
    let sent = was.push(b);
    let at = was.len() as int;
    lemma_reached(d.list, d.k, sent, at);
    lemma_reached_prefix(d.list, d.k, was, sent, at);
    assert(sent[at] == b);
    assert forall|i: int| 0 <= i < at + 1 implies #[trigger] fine(d, sent, i) by {
        if i < at {
            assert(fine(d, was, i));
            assert(sent.take(i) =~= was.take(i));
            assert(sent[i] == was[i]);
            lemma_reached_prefix(d.list, d.k, was, sent, i);
        } else {
            assert(sent.take(i) =~= was);
        }
    }
}

/// What is sent out of the first `q` blocks of a store.
proof fn lemma_sent_of_store(d: Delivery, height: u64, store: Seq<BlockModel>, q: int)
    requires
        holds_chain(d, store),
        forall|i: int| 0 <= i < d.list.len() ==> (#[trigger] d.list[i]).height == i + 1,
        d.k == height <= d.list.len(),
        0 <= q <= store.len(),
    ensures
        ({
            let sent = blocks_above(store.take(q), height);
            reached(d.list, 0, store, q) <= reached(d.list, d.k, sent, sent.len() as int)
        }),
        forall|i: int|
            0 <= i < blocks_above(store.take(q), height).len() ==> #[trigger] fine(
                d,
                blocks_above(store.take(q), height),
                i,
            ),
    decreases q,
{
    if q > 0 {
        let given = d.node.blocks.to_set();
        let front = store.take(q - 1);
        let was = blocks_above(front, height);
        let b = store[q - 1];
        let c = reached(d.list, 0, store, q - 1);
        lemma_sent_of_store(d, height, store, q - 1);
        lemma_reached(d.list, 0, store, q - 1);
        lemma_reached(d.list, d.k, was, was.len() as int);
        assert(store.take(q).drop_last() =~= front);
        assert(store.take(q).last() == b);
        if b.height > height {
            if unconnected(given.union(front.to_set()), b) {
                lemma_above_is_stored(front, height);
                assert(was.to_set().subset_of(front.to_set()));
                lemma_fewer_connect(given.union(was.to_set()), given.union(front.to_set()), b);
            }
            lemma_sent_more(d, was, b, c);
        } else if is_next(d.list, 0, store, q - 1) {
            assert(d.list[c].height == c + 1);
        }
    } else {
        assert(store.take(0) =~= Seq::empty());
    }
}

/// What a peer that holds the chain sends carries the chain to a node that has
/// stored its own part of it. Besides the chain the peer may have stored
/// siblings of its blocks, and blocks that came without an ancestor and cannot
/// win.
pub proof fn law_peer_with_stash_carries_chain(
    d: Delivery,
    end: StateModel,
    store: Seq<BlockModel>,
)
    requires
        on_the_way(d, end),
        forall|t: int| 0 <= t < d.k ==> d.node.blocks.contains(#[trigger] d.list[t]),
        d.sent == blocks_above(store, d.node.chain.tip_height),
        holds_chain(d, store),
    ensures
        carries_chain(d),
{
    lemma_stands(d, end, d.node, d.k);
    assert forall|i: int| 0 <= i < d.list.len() implies (#[trigger] d.list[i]).height == i + 1 by {
        lemma_replay_heights(start(d), d.list, d.node.reward, d.verified, i);
    }
    lemma_sent_of_store(d, d.node.chain.tip_height, store, store.len() as int);
    lemma_reached(d.list, d.k, d.sent, d.sent.len() as int);
    assert(store.take(store.len() as int) =~= store);
    assert forall|i: int| 0 <= i < d.sent.len() implies is_next(d.list, d.k, d.sent, i)
        || #[trigger] stays_beside(d, i) by {
        let c = reached(d.list, d.k, d.sent, i);
        assert(fine(d, d.sent, i));
        lemma_reached(d.list, d.k, d.sent, i);
        if unconnected(come(d, i), d.sent[i]) && c > 0 {
            let a = d.list.take(c);
            lemma_chain_is_linked(d, end, c);
            assert forall|t: int| 0 <= t < a.len() implies come(d, i).contains(
                #[trigger] a[t],
            ) by {
                assert(a[t] == d.list[t]);
                if t < d.k {
                    assert(d.node.blocks.contains(d.list[t]));
                } else {
                    lemma_reached_has_come(d, i, t);
                }
            }
            lemma_not_on_branch(d, i, a, d.sent[i]);
        }
    }
}

// ---------------------------------------------------------------------------
// every store is a chain and a stash
// ---------------------------------------------------------------------------

/// Whether a node stands on the end of a chain which it has stored in order,
/// and every other stored block was, when it was stored, not above the tip or
/// had a missing ancestor.
pub open spec fn keeps_chain(
    n: NodeModel,
    list: Seq<BlockModel>,
    verified: Set<ClaimModel>,
) -> bool {
    &&& replay(empty_state(n.chain.difficulty), list, n.reward, verified) == Ok::<
        StateModel,
        NodeError,
    >(n.chain)
    &&& reached(list, 0, n.blocks, n.blocks.len() as int) == list.len()
    &&& forall|q: int|
        0 <= q < n.blocks.len() ==> {
            ||| is_next(list, 0, n.blocks, q)
            ||| (#[trigger] n.blocks[q]).height <= reached(list, 0, n.blocks, q)
            ||| known_branch(n.blocks.take(q), n.blocks[q]) is None
        }
}

/// A node without blocks keeps the empty chain.
pub proof fn law_new_node_keeps_chain(n: NodeModel, verified: Set<ClaimModel>)
    requires
        n.blocks.len() == 0,
        n.chain == empty_state(n.chain.difficulty),
    ensures
        keeps_chain(n, Seq::empty(), verified),
{
}

/// Appending a block to a replayed chain.
proof fn lemma_replay_append(
    s: StateModel,
    list: Seq<BlockModel>,
    b: BlockModel,
    reward: u64,
    verified: Set<ClaimModel>,
)
    requires
        replay(s, list, reward, verified) is Ok,
    ensures
        replay(s, list.push(b), reward, verified) == block_outcome(
            replay(s, list, reward, verified)->Ok_0,
            b,
            reward,
            verified,
        ),
    decreases list.len(),
{
    let all = list.push(b);
    assert(all[0] == (if list.len() == 0 {
        b
    } else {
        list[0]
    }));
    if list.len() == 0 {
        assert(all.drop_first() =~= Seq::empty());
        reveal_with_fuel(replay, 2);
    } else {
        let next = block_outcome(s, list[0], reward, verified)->Ok_0;
        assert(all.drop_first() =~= list.drop_first().push(b));
        lemma_replay_append(next, list.drop_first(), b, reward, verified);
    }
}

/// A longer chain is reached no later.
proof fn lemma_reached_longer(
    list: Seq<BlockModel>,
    b: BlockModel,
    store: Seq<BlockModel>,
    i: int,
)
    requires
        0 <= i <= store.len(),
    ensures
        ({
            let r = reached(list, 0, store, i);
            let r2 = reached(list.push(b), 0, store, i);
            0 <= r <= list.len() && (r2 == r || (r == list.len() && r2 == r + 1))
        }),
    decreases i,
{
    if i > 0 {
        lemma_reached_longer(list, b, store, i - 1);
    }
}

/// A block that is appended to the tip is appended to the chain.
proof fn lemma_keeps_extended(
    n: NodeModel,
    list: Seq<BlockModel>,
    b: BlockModel,
    verified: Set<ClaimModel>,
)
    requires
        keeps_chain(n, list, verified),
        block_outcome(n.chain, b, n.reward, verified) is Ok,
    ensures
        keeps_chain(
            (NodeModel {
                chain: block_outcome(n.chain, b, n.reward, verified)->Ok_0,
                blocks: n.blocks.push(b),
                ..n
            }),
            list.push(b),
            verified,
        ),
{
    let store = n.blocks;
    let more = store.push(b);
    let long = list.push(b);
    let end = store.len() as int;
    law_tip_carries_work(n.chain, b, n.reward, verified);
    lemma_replay_append(empty_state(n.chain.difficulty), list, b, n.reward, verified);
    lemma_reached_prefix(long, 0, store, more, end);
    lemma_reached_longer(list, b, store, end);
    assert forall|q: int| 0 <= q < more.len() implies {
        ||| is_next(long, 0, more, q)
        ||| (#[trigger] more[q]).height <= reached(long, 0, more, q)
        ||| known_branch(more.take(q), more[q]) is None
    } by {
        lemma_reached_prefix(long, 0, store, more, q);
        lemma_reached_longer(list, b, store, q);
        if q < end {
            assert(more[q] == store[q]);
            assert(more.take(q) =~= store.take(q));
        } else {
            lemma_tip_is_length(n, list, verified);
        }
    }
}

/// The tip stands as high as the chain is long.
proof fn lemma_tip_is_length(n: NodeModel, list: Seq<BlockModel>, verified: Set<ClaimModel>)
    requires
        keeps_chain(n, list, verified),
    ensures
        n.chain.tip_height == list.len(),
{
    lemma_replay_split(
        empty_state(n.chain.difficulty),
        list,
        n.reward,
        verified,
        list.len() as int,
    );
    assert(list.take(list.len() as int) =~= list);
}

/// A block that is stashed leaves the chain.
proof fn lemma_keeps_stashed(
    n: NodeModel,
    list: Seq<BlockModel>,
    b: BlockModel,
    verified: Set<ClaimModel>,
)
    requires
        keeps_chain(n, list, verified),
        b.height <= n.chain.tip_height || known_branch(n.blocks, b) is None,
    ensures
        keeps_chain((NodeModel { blocks: n.blocks.push(b), ..n }), list, verified),
{
    let store = n.blocks;
    let more = store.push(b);
    let end = store.len() as int;
    lemma_tip_is_length(n, list, verified);
    lemma_reached_prefix(list, 0, store, more, end);
    assert forall|q: int| 0 <= q < more.len() implies {
        ||| is_next(list, 0, more, q)
        ||| (#[trigger] more[q]).height <= reached(list, 0, more, q)
        ||| known_branch(more.take(q), more[q]) is None
    } by {
        lemma_reached_prefix(list, 0, store, more, q);
        assert(more.take(q) =~= store.take(q));
        if q < end {
            assert(more[q] == store[q]);
        } else {
            assert(more.take(q) =~= store);
        }
    }
}

/// A chain that is all that is stored is reached block by block.
proof fn lemma_reached_itself(list: Seq<BlockModel>, i: int)
    requires
        0 <= i <= list.len(),
    ensures
        reached(list, 0, list, i) == i,
    decreases i,
{
    if i > 0 {
        lemma_reached_itself(list, i - 1);
    }
}

/// Every node keeps a chain: whatever block comes in, the node stands on the end
/// of a chain that it has stored in order, and what else it has stored was not
/// above the tip, or had a missing ancestor, when it came.
pub proof fn law_store_is_chain_and_stash(
    n: NodeModel,
    list: Seq<BlockModel>,
    b: BlockModel,
    verified: Set<ClaimModel>,
)
    requires
        keeps_chain(n, list, verified),
        incoming_outcome(n, b, verified) is Ok,
    ensures
        exists|next: Seq<BlockModel>| #[trigger]
            keeps_chain(incoming_outcome(n, b, verified)->Ok_0, next, verified),
{
    let m = taken_up(n, b, verified)->Ok_0;
    let next = incoming_outcome(n, b, verified)->Ok_0;
    lemma_on_longest(m, verified);
    lemma_taken_up(n, b, verified);
    if winner(m, verified) is Some {
        let all = next.blocks;
        lemma_reached_itself(all, all.len() as int);
        assert forall|q: int| 0 <= q < all.len() implies is_next(all, 0, all, q) || (
        #[trigger] all[q]).height <= reached(all, 0, all, q) by {
            lemma_reached_itself(all, q);
        }
        assert(keeps_chain(next, all, verified));
    } else if b.height > n.chain.tip_height && b.prev_hash == n.chain.tip_hash {
        lemma_keeps_extended(n, list, b, verified);
        assert(keeps_chain(next, list.push(b), verified));
    } else {
        if b.height > n.chain.tip_height && known_branch(n.blocks, b) is Some {
            law_taller_branch_is_taken(n, b, verified);
        } else if b.height <= n.chain.tip_height || known_branch(n.blocks, b) is None {
            lemma_keeps_stashed(n, list, b, verified);
        }
        assert(keeps_chain(next, list, verified));
    }
}

/// A block that the node mined itself is appended to its chain.
pub proof fn law_mining_keeps_chain(
    n: NodeModel,
    list: Seq<BlockModel>,
    mined: BlockModel,
    verified: Set<ClaimModel>,
)
    requires
        keeps_chain(n, list, verified),
        commit_outcome(n, mined, verified) is Ok,
    ensures
        keeps_chain(commit_outcome(n, mined, verified)->Ok_0, list.push(mined), verified),
{
    lemma_keeps_extended(n, list, mined, verified);
}

} // verus!
