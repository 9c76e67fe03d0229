//! Which signatures a node has to check before it takes a message or mines,
//! and that nothing else decides.
use vstd::prelude::*;

use crate::block::{behind_coinbase, block_hash, blocks_of, Block, BlockModel};
use crate::chain::{block_outcome, empty_state, Coins};
use crate::claims::{
    agree, law_block_depends_on_listed_claims, law_replay_depends_on_listed_claims,
    law_spend_depends_on_listed_claims, named, reachable, wanted, ClaimScope, NamedCoin, ScopeModel,
};
use crate::codec::{blocks, decode_blocks, payload, tx, Message};
use crate::fork::{law_found_branch_is_linked, lemma_extension, lemma_on_longest, none_above};
use crate::ledger::{law_tip_carries_work, replay};
use crate::mempool::{MAX_POOL, Mempool};
use crate::node::{
    admissions, commit_outcome, incoming_outcome, known_branch, offered, on_longest, orphaned_txs,
    stashed, taken_up, tallest_of, winner, NodeModel, NodeState,
};
use crate::protocol::{applied_count, delivered, gossip_step, handled, SessionModel};
use crate::sig::{claims_of, ClaimModel, SigClaim};
use crate::text::{copy_text, same_text};
use crate::tx::{txs_of, TxModel};
use crate::wire::{counted, MSG_BLOCKS, MSG_MEMPOOL, MSG_TX};

verus! {

/// The transactions of a list of blocks.
pub open spec fn txs_in(s: Seq<BlockModel>) -> Set<TxModel> {
    Set::new(
        |t: TxModel|
            exists|i: int| 0 <= i < s.len() && (#[trigger] s[i]).transactions.contains(t),
    )
}

/// Whether blocks stand one on the other, the first on a block with the given
/// height and hash.
pub open spec fn stacked(list: Seq<BlockModel>, height: u64, hash: Seq<char>) -> bool
    decreases list.len(),
{
    list.len() == 0 || {
        &&& list[0].height == height + 1
        &&& list[0].prev_hash == hash
        &&& stacked(list.drop_first(), list[0].height, block_hash(list[0]))
    }
}

/// Whether blocks can only extend the tip: they stand on it one on the other,
/// and no stored block is above it.
pub open spec fn straight(n: NodeModel, list: Seq<BlockModel>) -> bool {
    none_above(n) && stacked(list, n.chain.tip_height, n.chain.tip_hash)
}

/// The transactions that a message can make a node judge. With blocks that may
/// change the branch come the stored ones, since such a change replays them.
pub open spec fn message_txs(n: NodeModel, kind: u8, body: Seq<u8>) -> Set<TxModel> {
    if kind == MSG_BLOCKS {
        match payload(blocks(), body) {
            Ok(list) => if straight(n, list) {
                txs_in(list)
            } else {
                txs_in(n.blocks).union(txs_in(list))
            },
            Err(_) => Set::empty(),
        }
    } else if kind == MSG_TX || kind == MSG_MEMPOOL {
        match payload(counted(tx(), MAX_POOL as nat), body) {
            Ok(list) => list.to_set(),
            Err(_) => Set::empty(),
        }
    } else {
        Set::empty()
    }
}

/// Adds the transactions of blocks.
fn add_blocks(scope: &mut ClaimScope, list: &Vec<Block>)
    ensures
        final(scope)@ == (ScopeModel {
            coins: old(scope)@.coins,
            txs: old(scope)@.txs.union(txs_in(blocks_of(list@))),
        }),
{
    let ghost start = scope@;
    let ghost all = blocks_of(list@);
    let mut i: usize = 0;
    assert(start.txs.union(txs_in(all.take(0))) =~= start.txs);
    while i < list.len()
        invariant
            i <= list@.len(),
            all == blocks_of(list@),
            scope@ == (ScopeModel {
                coins: start.coins,
                txs: start.txs.union(txs_in(all.take(i as int))),
            }),
        decreases list@.len() - i,
    {
        scope.add_txs(&list[i].transactions);
        i = i + 1;
        proof {
            let b = all[i - 1];
            let front = all.take(i - 1);
            let next = all.take(i as int);
            assert forall|t: TxModel| txs_in(next).contains(t) == (txs_in(front).contains(t)
                || b.transactions.to_set().contains(t)) by {
                if txs_in(front).contains(t) {
                    let j = choose|j: int|
                        0 <= j < front.len() && (#[trigger] front[j]).transactions.contains(t);
                    assert(next[j].transactions.contains(t));
                }
                if b.transactions.contains(t) {
                    assert(next[i - 1].transactions.contains(t));
                }
                if txs_in(next).contains(t) {
                    let j = choose|j: int|
                        0 <= j < next.len() && (#[trigger] next[j]).transactions.contains(t);
                    if j < i - 1 {
                        assert(front[j].transactions.contains(t));
                    }
                }
            }
            assert(scope@.txs =~= start.txs.union(txs_in(next)));
        }
    }
    assert(all.take(i as int) =~= all);
}

impl NodeState {
    /// Whether blocks can only extend our tip.
    fn is_straight(&self, list: &Vec<Block>) -> (r: bool)
        ensures
            r == straight(self@, blocks_of(list@)),
    {
        let ghost all = blocks_of(list@);
        let mut i: usize = 0;
        while i < self.blocks.len()
            invariant
                i <= self.blocks@.len(),
                forall|j: int|
                    0 <= j < i ==> (#[trigger] self@.blocks[j]).height <= self@.chain.tip_height,
            decreases self.blocks@.len() - i,
        {
            assert(self@.blocks[i as int] == self.blocks@[i as int]@);
            if self.blocks[i].height > self.chain.tip_height {
                return false;
            }
            i = i + 1;
        }
        let mut height: u64 = self.chain.tip_height;
        let mut hash: String = copy_text(&self.chain.tip_hash);
        let mut j: usize = 0;
        assert(all.skip(0) =~= all);
        while j < list.len()
            invariant
                j <= list@.len(),
                all == blocks_of(list@),
                none_above(self@),
                straight(self@, all) == stacked(all.skip(j as int), height, hash@),
            decreases list@.len() - j,
        {
            let b: &Block = &list[j];
            proof {
                assert(all.skip(j as int)[0] == b@);
                assert(all.skip(j as int).drop_first() =~= all.skip(j + 1));
            }
            if b.height == 0 || b.height - 1 != height || !same_text(&b.prev_hash, &hash) {
                return false;
            }
            height = b.height;
            hash = b.hash();
            j = j + 1;
        }
        assert(all.skip(j as int).len() == 0);
        true
    }

    /// The claims that taking a message can depend on.
    pub fn message_claims(&self, m: &Message) -> (r: Vec<SigClaim>)
        ensures
            claims_of(r@).to_set() == wanted(
                named(self@.chain.utxos),
                message_txs(self@, m.kind, m.payload@),
            ),
    {
        let mut scope: ClaimScope = ClaimScope::new();
        scope.add_coins(&self.chain.utxos);
        assert(scope@.coins =~= named(self@.chain.utxos));
        if m.kind == MSG_BLOCKS {
            match decode_blocks(&m.payload) {
                Ok(list) => {
                    if !self.is_straight(&list) {
                        add_blocks(&mut scope, &self.blocks);
                    }
                    add_blocks(&mut scope, &list);
                    assert(scope@.txs =~= message_txs(self@, m.kind, m.payload@));
                },
                Err(_) => {},
            }
        } else if m.kind == MSG_TX || m.kind == MSG_MEMPOOL {
            match Mempool::decode_all(&m.payload) {
                Ok(txs) => {
                    scope.add_txs(&txs);
                    assert(scope@.txs =~= txs_of(txs@).to_set());
                },
                Err(_) => {},
            }
        }
        scope.claims()
    }

    /// The claims that appending a block to our tip can depend on.
    pub fn block_claims(&self, b: &Block) -> (r: Vec<SigClaim>)
        ensures
            claims_of(r@).to_set() == wanted(
                named(self@.chain.utxos),
                b@.transactions.to_set(),
            ),
    {
        let mut scope: ClaimScope = ClaimScope::new();
        scope.add_coins(&self.chain.utxos);
        scope.add_txs(&b.transactions);
        assert(scope@.coins =~= named(self@.chain.utxos));
        assert(scope@.txs =~= b@.transactions.to_set());
        scope.claims()
    }
}

// ---------------------------------------------------------------------------
// nothing else decides
// ---------------------------------------------------------------------------

/// Whether a node draws only on the given outputs and transactions.
pub open spec fn within(n: NodeModel, given: Set<NamedCoin>, txs: Set<TxModel>) -> bool {
    named(n.chain.utxos).subset_of(reachable(given, txs)) && txs_in(n.blocks).subset_of(txs)
}

proof fn lemma_offered_agree(
    pool: Seq<TxModel>,
    list: Seq<TxModel>,
    coins: Coins,
    a: Set<ClaimModel>,
    b: Set<ClaimModel>,
    given: Set<NamedCoin>,
    txs: Set<TxModel>,
)
    requires
        named(coins).subset_of(reachable(given, txs)),
        forall|i: int| 0 <= i < list.len() ==> txs.contains(#[trigger] list[i]),
        agree(a, b, wanted(given, txs)),
    ensures
        offered(pool, list, coins, a) == offered(pool, list, coins, b),
        admissions(pool, list, coins, a) == admissions(pool, list, coins, b),
    decreases list.len(),
{
    if list.len() > 0 {
        let front = list.drop_last();
        assert forall|i: int| 0 <= i < front.len() implies txs.contains(#[trigger] front[i]) by {
            assert(front[i] == list[i]);
        }
        lemma_offered_agree(pool, front, coins, a, b, given, txs);
        assert(txs.contains(list[list.len() - 1]));
        law_spend_depends_on_listed_claims(coins, list.last(), a, b, given, txs);
    }
}

proof fn lemma_orphans_within(
    store: Seq<BlockModel>,
    branch: Seq<BlockModel>,
    txs: Set<TxModel>,
)
    requires
        txs_in(store).subset_of(txs),
    ensures
        forall|i: int|
            0 <= i < orphaned_txs(store, branch).len() ==> txs.contains(
                #[trigger] orphaned_txs(store, branch)[i],
            ),
    decreases store.len(),
{
    if store.len() > 0 {
        let front = store.drop_last();
        let b = store.last();
        assert forall|t: TxModel| txs_in(front).contains(t) implies txs.contains(t) by {
            let i = choose|i: int|
                0 <= i < front.len() && (#[trigger] front[i]).transactions.contains(t);
            assert(store[i].transactions.contains(t));
            assert(txs_in(store).contains(t));
        }
        lemma_orphans_within(front, branch, txs);
        let more = behind_coinbase(b.transactions);
        let all = orphaned_txs(store, branch);
        let was = orphaned_txs(front, branch);
        assert forall|i: int| 0 <= i < all.len() implies txs.contains(#[trigger] all[i]) by {
            if i < was.len() {
                assert(all[i] == was[i]);
            } else {
                assert(all[i] == more[i - was.len()]);
                assert(b.transactions[i - was.len() + 1] == all[i]);
                assert(store[store.len() - 1].transactions.contains(all[i]));
                assert(txs_in(store).contains(all[i]));
            }
        }
    }
}

proof fn lemma_block_txs(s: Seq<BlockModel>, i: int, txs: Set<TxModel>)
    requires
        txs_in(s).subset_of(txs),
        0 <= i < s.len(),
    ensures
        s[i].transactions.to_set().subset_of(txs),
{
    assert forall|t: TxModel| s[i].transactions.to_set().contains(t) implies txs.contains(t) by {
        assert(s[i].transactions.contains(t));
        assert(txs_in(s).contains(t));
    }
}

proof fn lemma_store_grows(store: Seq<BlockModel>, b: BlockModel, txs: Set<TxModel>)
    requires
        txs_in(store).subset_of(txs),
        b.transactions.to_set().subset_of(txs),
    ensures
        txs_in(store.push(b)).subset_of(txs),
        txs_in(stashed(store, b)).subset_of(txs),
{
    let s = store.push(b);
    assert forall|t: TxModel| txs_in(s).contains(t) implies txs.contains(t) by {
        let i = choose|i: int| 0 <= i < s.len() && (#[trigger] s[i]).transactions.contains(t);
        if i < store.len() {
            assert(store[i].transactions.contains(t));
            assert(txs_in(store).contains(t));
        } else {
            assert(b.transactions.to_set().contains(t));
        }
    }
}

/// A stored branch, or one that ends in a block of the given transactions,
/// replays alike under records that agree, and brings nothing else in.
proof fn lemma_branch_agrees(
    n: NodeModel,
    x: BlockModel,
    a: Set<ClaimModel>,
    b: Set<ClaimModel>,
    given: Set<NamedCoin>,
    txs: Set<TxModel>,
)
    requires
        within(n, given, txs),
        x.transactions.to_set().subset_of(txs),
        known_branch(n.blocks, x) is Some,
        agree(a, b, wanted(given, txs)),
    ensures
        ({
            let branch = known_branch(n.blocks, x)->0;
            let zero = empty_state(n.chain.difficulty);
            &&& replay(zero, branch, n.reward, a) == replay(zero, branch, n.reward, b)
            &&& replay(zero, branch, n.reward, a) matches Ok(end) ==> named(end.utxos).subset_of(
                reachable(given, txs),
            )
            &&& txs_in(branch).subset_of(txs)
        }),
{
    let branch = known_branch(n.blocks, x)->0;
    let zero = empty_state(n.chain.difficulty);
    law_found_branch_is_linked(n.blocks, x, n.blocks.len());
    assert forall|i: int| 0 <= i < branch.len() implies (
    #[trigger] branch[i]).transactions.to_set().subset_of(txs) by {
        if i < branch.len() - 1 {
            assert(n.blocks.contains(branch[i]));
            let k = choose|k: int| 0 <= k < n.blocks.len() && n.blocks[k] == branch[i];
            lemma_block_txs(n.blocks, k, txs);
        } else {
            assert(branch[i] == branch.last());
        }
    }
    assert(named(zero.utxos) =~= Set::empty());
    law_replay_depends_on_listed_claims(zero, branch, n.reward, a, b, given, txs);
    assert forall|t: TxModel| txs_in(branch).contains(t) implies txs.contains(t) by {
        let i = choose|i: int|
            0 <= i < branch.len() && (#[trigger] branch[i]).transactions.contains(t);
        assert(branch[i].transactions.to_set().contains(t));
    }
}

proof fn lemma_tallest_agrees(
    n: NodeModel,
    k: nat,
    a: Set<ClaimModel>,
    b: Set<ClaimModel>,
    given: Set<NamedCoin>,
    txs: Set<TxModel>,
)
    requires
        within(n, given, txs),
        k <= n.blocks.len(),
        agree(a, b, wanted(given, txs)),
    ensures
        tallest_of(n, k, a) == tallest_of(n, k, b),
    decreases k,
{
    if k > 0 {
        lemma_tallest_agrees(n, (k - 1) as nat, a, b, given, txs);
        let x = n.blocks[k - 1];
        lemma_block_txs(n.blocks, k - 1, txs);
        if known_branch(n.blocks, x) is Some {
            lemma_branch_agrees(n, x, a, b, given, txs);
        }
    }
}

proof fn lemma_on_longest_agrees(
    n: NodeModel,
    a: Set<ClaimModel>,
    b: Set<ClaimModel>,
    given: Set<NamedCoin>,
    txs: Set<TxModel>,
)
    requires
        within(n, given, txs),
        agree(a, b, wanted(given, txs)),
    ensures
        on_longest(n, a) == on_longest(n, b),
        within(on_longest(n, a), given, txs),
{
    lemma_tallest_agrees(n, n.blocks.len(), a, b, given, txs);
    lemma_on_longest(n, a);
    if winner(n, a) is Some {
        let x = winner(n, a)->0;
        let branch = known_branch(n.blocks, x)->0;
        let k = choose|k: int| 0 <= k < n.blocks.len() && n.blocks[k] == x;
        lemma_block_txs(n.blocks, k, txs);
        lemma_branch_agrees(n, x, a, b, given, txs);
        lemma_orphans_within(n.blocks, branch, txs);
        lemma_offered_agree(
            n.pool,
            orphaned_txs(n.blocks, branch),
            on_longest(n, a).chain.utxos,
            a,
            b,
            given,
            txs,
        );
    }
}

/// What an incoming block comes to depends on the record only through the
/// claims on the outputs and transactions that the node and the block draw on.
pub proof fn law_incoming_depends_on_listed_claims(
    n: NodeModel,
    blk: BlockModel,
    a: Set<ClaimModel>,
    b: Set<ClaimModel>,
    given: Set<NamedCoin>,
    txs: Set<TxModel>,
)
    requires
        within(n, given, txs),
        blk.transactions.to_set().subset_of(txs),
        agree(a, b, wanted(given, txs)),
    ensures
        incoming_outcome(n, blk, a) == incoming_outcome(n, blk, b),
        incoming_outcome(n, blk, a) matches Ok(next) ==> within(next, given, txs),
{
    lemma_store_grows(n.blocks, blk, txs);
    if blk.height > n.chain.tip_height {
        if blk.prev_hash == n.chain.tip_hash {
            law_block_depends_on_listed_claims(n.chain, blk, n.reward, a, b, given, txs);
        } else if known_branch(n.blocks, blk) is Some {
            lemma_branch_agrees(n, blk, a, b, given, txs);
        }
    }
    if taken_up(n, blk, a) is Ok {
        lemma_on_longest_agrees(taken_up(n, blk, a)->Ok_0, a, b, given, txs);
    }
}

proof fn lemma_txs_of_rest(list: Seq<BlockModel>, txs: Set<TxModel>)
    requires
        txs_in(list).subset_of(txs),
        list.len() > 0,
    ensures
        txs_in(list.drop_first()).subset_of(txs),
{
    let rest = list.drop_first();
    assert forall|t: TxModel| txs_in(rest).contains(t) implies txs.contains(t) by {
        let i = choose|i: int|
            0 <= i < rest.len() && (#[trigger] rest[i]).transactions.contains(t);
        assert(list[i + 1].transactions.contains(t));
        assert(txs_in(list).contains(t));
    }
}

proof fn lemma_delivered_agree(
    n: NodeModel,
    list: Seq<BlockModel>,
    a: Set<ClaimModel>,
    b: Set<ClaimModel>,
    given: Set<NamedCoin>,
    txs: Set<TxModel>,
)
    requires
        within(n, given, txs),
        txs_in(list).subset_of(txs),
        agree(a, b, wanted(given, txs)),
    ensures
        delivered(n, list, a) == delivered(n, list, b),
        applied_count(n, list, a) == applied_count(n, list, b),
    decreases list.len(),
{
    if list.len() > 0 {
        lemma_block_txs(list, 0, txs);
        law_incoming_depends_on_listed_claims(n, list[0], a, b, given, txs);
        let rest = list.drop_first();
        lemma_txs_of_rest(list, txs);
        if incoming_outcome(n, list[0], a) is Ok {
            lemma_delivered_agree(
                incoming_outcome(n, list[0], a)->Ok_0,
                rest,
                a,
                b,
                given,
                txs,
            );
        }
    }
}

/// Blocks that can only extend the tip draw on no stored transaction.
proof fn lemma_straight_agree(
    n: NodeModel,
    list: Seq<BlockModel>,
    a: Set<ClaimModel>,
    b: Set<ClaimModel>,
    given: Set<NamedCoin>,
    txs: Set<TxModel>,
)
    requires
        straight(n, list),
        named(n.chain.utxos).subset_of(reachable(given, txs)),
        txs_in(list).subset_of(txs),
        agree(a, b, wanted(given, txs)),
    ensures
        delivered(n, list, a) == delivered(n, list, b),
        applied_count(n, list, a) == applied_count(n, list, b),
    decreases list.len(),
{
    if list.len() > 0 {
        let blk = list[0];
        let rest = list.drop_first();
        lemma_block_txs(list, 0, txs);
        lemma_txs_of_rest(list, txs);
        law_block_depends_on_listed_claims(n.chain, blk, n.reward, a, b, given, txs);
        if block_outcome(n.chain, blk, n.reward, a) is Ok {
            let next = block_outcome(n.chain, blk, n.reward, a)->Ok_0;
            let m = NodeModel { chain: next, blocks: n.blocks.push(blk), ..n };
            law_tip_carries_work(n.chain, blk, n.reward, a);
            lemma_extension(n, blk, a);
            lemma_extension(n, blk, b);
            lemma_straight_agree(m, rest, a, b, given, txs);
        }
    }
}

/// How a node takes a message depends on the record only through the claims
/// that are listed for the message: as server and as client of a gossip round.
#[verifier::rlimit(30)]
pub proof fn law_messages_depend_on_listed_claims(
    n: NodeModel,
    g: SessionModel,
    kind: u8,
    body: Seq<u8>,
    now: u64,
    a: Set<ClaimModel>,
    b: Set<ClaimModel>,
)
    requires
        agree(a, b, wanted(named(n.chain.utxos), message_txs(n, kind, body))),
    ensures
        handled(n, kind, body, now, a) == handled(n, kind, body, now, b),
        gossip_step(g, n, kind, body, now, a) == gossip_step(g, n, kind, body, now, b),
{
    let given = named(n.chain.utxos);
    let txs = message_txs(n, kind, body);
    if kind == MSG_BLOCKS {
        if payload(blocks(), body) is Ok {
            let list = payload(blocks(), body)->Ok_0;
            if straight(n, list) {
                lemma_straight_agree(n, list, a, b, given, txs);
            } else {
                lemma_delivered_agree(n, list, a, b, given, txs);
            }
        }
    } else if kind == MSG_TX || kind == MSG_MEMPOOL {
        if payload(counted(tx(), MAX_POOL as nat), body) is Ok {
            let list = payload(counted(tx(), MAX_POOL as nat), body)->Ok_0;
            assert forall|i: int| 0 <= i < list.len() implies txs.contains(#[trigger] list[i]) by {
                assert(list.contains(list[i]));
            }
            lemma_offered_agree(n.pool, list, n.chain.utxos, a, b, given, txs);
        }
    }
}

/// What a mined block comes to depends on the record only through the claims
/// that are listed for the block.
pub proof fn law_mining_depends_on_listed_claims(
    n: NodeModel,
    mined: BlockModel,
    a: Set<ClaimModel>,
    b: Set<ClaimModel>,
)
    requires
        agree(a, b, wanted(named(n.chain.utxos), mined.transactions.to_set())),
    ensures
        commit_outcome(n, mined, a) == commit_outcome(n, mined, b),
{
    law_block_depends_on_listed_claims(
        n.chain,
        mined,
        n.reward,
        a,
        b,
        named(n.chain.utxos),
        mined.transactions.to_set(),
    );
}

} // verus!
