//! The node: fork choice over the block store, and mining.
use vstd::prelude::*;

use crate::addrbook::{AddrBook, BookModel};
use crate::block::{
    behind_coinbase, block_hash, blocks_of, coinbase, coinbase_of, has_work, mine_block, with_nonce,
    Block, BlockModel,
};
use crate::bytes::copy_bytes;
use crate::chain::{block_outcome, empty_state, ChainState, Coins, NodeError, StateModel};
use crate::codec::tx_refs;
use crate::ledger::replay;
use crate::mempool::{accept_outcome, without_all_mined, Mempool};
use crate::sig::{ClaimModel, Verified};
use crate::text::{copy_text, same_text};
use crate::tx::{txs_of, Transaction, TxModel};
use crate::wire::{IoError, IoKind, NetError};

verus! {

/// Everything a connection or a gossip round needs.
#[derive(Debug)]
pub struct NodeState {
    /// The addr we advertise to peers ("ip:port" they can dial back).
    pub listen: String,
    /// Coinbase reward cap (validation parameter).
    pub reward: u64,
    /// The blocks of our chain, and fork siblings.
    pub blocks: Vec<Block>,
    /// The authoritative chain state (UTXO set + tip).
    pub chain: ChainState,
    /// Known peer addresses.
    pub book: AddrBook,
    /// Unconfirmed transaction pool.
    pub pool: Mempool,
    /// Coinbase paying key (mining + announce identity).
    pub miner_key: Vec<u8>,
}

/// The contents of a [`NodeState`].
pub struct NodeModel {
    pub listen: Seq<char>,
    pub reward: u64,
    pub blocks: Seq<BlockModel>,
    pub chain: StateModel,
    pub book: BookModel,
    pub pool: Seq<TxModel>,
    pub miner_key: Seq<u8>,
}

impl View for NodeState {
    type V = NodeModel;

    open spec fn view(&self) -> NodeModel {
        NodeModel {
            listen: self.listen@,
            reward: self.reward,
            blocks: blocks_of(self.blocks@),
            chain: self.chain@,
            book: self.book@,
            pool: self.pool@,
            miner_key: self.miner_key@,
        }
    }
}

// ---------------------------------------------------------------------------
// the block store
// ---------------------------------------------------------------------------

/// The first block of the store with the hash.
pub open spec fn block_named(store: Seq<BlockModel>, hash: Seq<char>) -> Option<BlockModel>
    decreases store.len(),
{
    if store.len() == 0 {
        None
    } else if block_hash(store[0]) == hash {
        Some(store[0])
    } else {
        block_named(store.drop_first(), hash)
    }
}

/// Whether a block of the list has the hash.
pub open spec fn holds_hash(store: Seq<BlockModel>, hash: Seq<char>) -> bool {
    exists|i: int| 0 <= i < store.len() && block_hash(#[trigger] store[i]) == hash
}

/// The store with a block that does not extend our tip, once.
pub open spec fn stashed(store: Seq<BlockModel>, b: BlockModel) -> Seq<BlockModel> {
    if holds_hash(store, block_hash(b)) {
        store
    } else {
        store.push(b)
    }
}

/// The branch that ends in `b`, its first block first, if the store holds all
/// of its ancestors; at most `hops` ancestors are looked up.
pub open spec fn ancestry(store: Seq<BlockModel>, b: BlockModel, hops: nat) -> Option<
    Seq<BlockModel>,
>
    decreases hops,
{
    if b.prev_hash.len() == 0 {
        Some(seq![b])
    } else if hops == 0 {
        None
    } else {
        match block_named(store, b.prev_hash) {
            Some(p) => match ancestry(store, p, (hops - 1) as nat) {
                Some(branch) => Some(branch.push(b)),
                None => None,
            },
            None => None,
        }
    }
}

/// The branch that ends in `b`, if it is fully known.
pub open spec fn known_branch(store: Seq<BlockModel>, b: BlockModel) -> Option<Seq<BlockModel>> {
    ancestry(store, b, store.len())
}

// ---------------------------------------------------------------------------
// fork choice
// ---------------------------------------------------------------------------

/// The spends of the stored blocks that the winning branch leaves behind, in
/// the order of the store.
pub open spec fn orphaned_txs(store: Seq<BlockModel>, branch: Seq<BlockModel>) -> Seq<TxModel>
    decreases store.len(),
{
    if store.len() == 0 {
        Seq::empty()
    } else {
        let b = store.last();
        let front = orphaned_txs(store.drop_last(), branch);
        if b.height > 0 && !holds_hash(branch, block_hash(b)) {
            front + behind_coinbase(b.transactions)
        } else {
            front
        }
    }
}

/// The pool after each transaction was offered to it; those that are not
/// admitted are left out.
pub open spec fn offered(
    pool: Seq<TxModel>,
    txs: Seq<TxModel>,
    coins: Coins,
    verified: Set<ClaimModel>,
) -> Seq<TxModel>
    decreases txs.len(),
{
    if txs.len() == 0 {
        pool
    } else {
        let before = offered(pool, txs.drop_last(), coins, verified);
        match accept_outcome(before, txs.last(), coins, verified) {
            Ok(next) => next,
            Err(_) => before,
        }
    }
}

/// The node after it went over to a branch.
pub open spec fn reorganized(
    n: NodeModel,
    branch: Seq<BlockModel>,
    fresh: StateModel,
    verified: Set<ClaimModel>,
) -> NodeModel {
    NodeModel {
        blocks: branch,
        chain: fresh,
        pool: offered(n.pool, orphaned_txs(n.blocks, branch), fresh.utxos, verified),
        ..n
    }
}

/// Whether the branch that ends in a block is fully known and replays from the
/// start.
pub open spec fn can_win(n: NodeModel, x: BlockModel, verified: Set<ClaimModel>) -> bool {
    match known_branch(n.blocks, x) {
        Some(branch) => replay(
            empty_state(n.chain.difficulty),
            branch,
            n.reward,
            verified,
        ) is Ok,
        None => false,
    }
}

/// The tallest of the first `k` stored blocks that stand above the tip and can
/// win; of equally tall ones the last.
pub open spec fn tallest_of(n: NodeModel, k: nat, verified: Set<ClaimModel>) -> Option<BlockModel>
    decreases k,
{
    if k == 0 {
        None
    } else {
        let before = tallest_of(n, (k - 1) as nat, verified);
        let x = n.blocks[k - 1];
        let higher = match before {
            Some(y) => y.height <= x.height,
            None => true,
        };
        if x.height > n.chain.tip_height && higher && can_win(n, x, verified) {
            Some(x)
        } else {
            before
        }
    }
}

/// The stored block that the node goes over to, if one is taller than the tip
/// and can win.
pub open spec fn winner(n: NodeModel, verified: Set<ClaimModel>) -> Option<BlockModel> {
    tallest_of(n, n.blocks.len(), verified)
}

/// The node after fork choice: on the branch of the winner, if there is one.
/// The chain is replayed from the start along that branch, and the spends of
/// the blocks left behind are offered to the pool.
pub open spec fn on_longest(n: NodeModel, verified: Set<ClaimModel>) -> NodeModel {
    match winner(n, verified) {
        Some(x) => {
            let branch = known_branch(n.blocks, x)->0;
            let fresh = replay(empty_state(n.chain.difficulty), branch, n.reward, verified)->Ok_0;
            reorganized(n, branch, fresh, verified)
        },
        None => n,
    }
}

/// The node once it has taken a block up, before fork choice, or why the block
/// is refused.
///
/// A block that is not taller than the tip changes nothing, but for a sibling
/// of the tip, which is stashed. A block on our tip extends it. Any other
/// taller block is stashed if an ancestor is missing; if its branch is fully
/// known it is stored, provided that the branch replays.
pub open spec fn taken_up(
    n: NodeModel,
    b: BlockModel,
    verified: Set<ClaimModel>,
) -> Result<NodeModel, NodeError> {
    if b.height < n.chain.tip_height || (b.height == n.chain.tip_height && block_hash(b)
        == n.chain.tip_hash) {
        Ok(n)
    } else if b.height == n.chain.tip_height {
        Ok(NodeModel { blocks: stashed(n.blocks, b), ..n })
    } else if b.prev_hash == n.chain.tip_hash {
        match block_outcome(n.chain, b, n.reward, verified) {
            Ok(next) => Ok(NodeModel { chain: next, blocks: n.blocks.push(b), ..n }),
            Err(e) => Err(e),
        }
    } else {
        match known_branch(n.blocks, b) {
            None => Ok(NodeModel { blocks: stashed(n.blocks, b), ..n }),
            Some(branch) => match replay(
                empty_state(n.chain.difficulty),
                branch,
                n.reward,
                verified,
            ) {
                Ok(_) => Ok(NodeModel { blocks: n.blocks.push(b), ..n }),
                Err(e) => Err(e),
            },
        }
    }
}

/// What an incoming block comes to: the node after it, or why the block is
/// refused. The block is taken up, and then the tallest branch that is fully
/// known wins.
pub open spec fn incoming_outcome(
    n: NodeModel,
    b: BlockModel,
    verified: Set<ClaimModel>,
) -> Result<NodeModel, NodeError> {
    match taken_up(n, b, verified) {
        Ok(next) => Ok(on_longest(next, verified)),
        Err(e) => Err(e),
    }
}

fn find_block(store: &Vec<Block>, hash: &str) -> (r: Option<usize>)
    ensures
        match r {
            Some(i) => i < store@.len() && block_named(blocks_of(store@), hash@) == Some(
                store@[i as int]@,
            ),
            None => block_named(blocks_of(store@), hash@) is None,
        },
        r is Some <==> holds_hash(blocks_of(store@), hash@),
{
    let ghost all = blocks_of(store@);
    let mut i: usize = 0;
    assert(all.skip(0) =~= all);
    while i < store.len()
        invariant
            i <= store@.len(),
            all == blocks_of(store@),
            block_named(all, hash@) == block_named(all.skip(i as int), hash@),
            forall|j: int| 0 <= j < i ==> block_hash(#[trigger] all[j]) != hash@,
        decreases store@.len() - i,
    {
        proof {
            assert(all.skip(i as int)[0] == all[i as int]);
            assert(all.skip(i as int).drop_first() =~= all.skip(i + 1));
        }
        let h: String = store[i].hash();
        if same_text(&h, hash) {
            assert(block_hash(all[i as int]) == hash@);
            return Some(i);
        }
        i = i + 1;
    }
    None
}

/// The result of a walk with the blocks below it put behind.
spec fn continued(front: Option<Seq<BlockModel>>, below: Seq<BlockModel>) -> Option<
    Seq<BlockModel>,
> {
    match front {
        Some(s) => Some(s + below),
        None => None,
    }
}

/// The branch that ends in `b`, its first block first, if it is fully known.
fn walk_back(store: &Vec<Block>, b: &Block) -> (r: Option<Vec<Block>>)
    ensures
        match known_branch(blocks_of(store@), b@) {
            Some(branch) => r matches Some(v) && blocks_of(v@) == branch,
            None => r is None,
        },
{
    let ghost all = blocks_of(store@);
    let mut down: Vec<Block> = Vec::new();
    let mut cur: Block = b.clone();
    let mut hops: usize = store.len();
    let ghost mut below: Seq<BlockModel> = Seq::empty();
    proof {
        assert(blocks_of(down@).reverse() =~= below);
        let f = ancestry(all, b@, all.len());
        if f is Some {
            assert(f->0 + below =~= f->0);
        }
    }
    while cur.prev_hash.as_str().as_bytes().len() > 0
        invariant
            all == blocks_of(store@),
            below == blocks_of(down@).reverse(),
            known_branch(all, b@) == continued(ancestry(all, cur@, hops as nat), below),
        decreases hops,
    {
        proof {
            lemma_no_bytes(cur.prev_hash@);
        }
        if hops == 0 {
            return None;
        }
        match find_block(store, &cur.prev_hash) {
            Some(i) => {
                let next: Block = store[i].clone();
                let ghost was = below;
                let ghost was_down = blocks_of(down@);
                let ghost x = cur@;
                down.push(cur);
                proof {
                    below = seq![x] + was;
                    assert(blocks_of(down@) =~= was_down.push(x));
                    assert(blocks_of(down@).reverse() =~= below);
                    let f = ancestry(all, next@, (hops - 1) as nat);
                    if f is Some {
                        assert(f->0.push(x) + was =~= f->0 + below);
                    }
                }
                cur = next;
                hops = hops - 1;
            },
            None => {
                return None;
            },
        }
    }
    proof {
        lemma_no_bytes(cur.prev_hash@);
    }
    let ghost whole = seq![cur@] + below;
    let mut out: Vec<Block> = Vec::new();
    let ghost first = cur@;
    out.push(cur);
    assert(blocks_of(out@) =~= seq![first]);
    while down.len() > 0
        invariant
            blocks_of(out@) + blocks_of(down@).reverse() == whole,
        decreases down@.len(),
    {
        let ghost was_out = blocks_of(out@);
        let ghost was_down = blocks_of(down@);
        match down.pop() {
            Some(x) => {
                let ghost m = x@;
                out.push(x);
                proof {
                    assert(blocks_of(out@) =~= was_out.push(m));
                    assert(blocks_of(down@) =~= was_down.drop_last());
                    assert(was_out + was_down.reverse() =~= blocks_of(out@) + blocks_of(
                        down@,
                    ).reverse());
                }
            },
            None => {},
        }
    }
    assert(blocks_of(out@) + blocks_of(down@).reverse() =~= blocks_of(out@));
    Some(out)
}

/// Only the empty text has no bytes.
proof fn lemma_no_bytes(s: Seq<char>)
    ensures
        vstd::utf8::encode_utf8(s).len() == 0 <==> s.len() == 0,
{
    if s.len() > 0 {
        vstd::utf8::encode_utf8_decode_utf8(s);
        if vstd::utf8::encode_utf8(s).len() == 0 {
            assert(vstd::utf8::encode_utf8(s) =~= Seq::empty());
            vstd::utf8::encode_utf8_decode_utf8(Seq::empty());
            assert(vstd::utf8::encode_utf8(Seq::empty()) =~= Seq::empty());
        }
    } else {
        assert(s =~= Seq::empty());
        assert(vstd::utf8::encode_utf8(s) =~= Seq::empty());
    }
}

/// Appends blocks to a fresh state.
fn replay_branch(branch: &Vec<Block>, difficulty: u32, reward: u64, verified: &Verified) -> (r:
    Result<ChainState, NodeError>)
    ensures
        match replay(empty_state(difficulty), blocks_of(branch@), reward, verified@) {
            Ok(s) => r matches Ok(c) && c@ == s,
            Err(e) => r == Err::<ChainState, NodeError>(e),
        },
{
    let ghost all = blocks_of(branch@);
    let mut fresh: ChainState = ChainState::new(difficulty);
    let mut i: usize = 0;
    assert(all.skip(0) =~= all);
    while i < branch.len()
        invariant
            i <= branch@.len(),
            all == blocks_of(branch@),
            replay(empty_state(difficulty), all, reward, verified@) == replay(
                fresh@,
                all.skip(i as int),
                reward,
                verified@,
            ),
        decreases branch@.len() - i,
    {
        proof {
            assert(all.skip(i as int)[0] == all[i as int]);
            assert(all.skip(i as int).drop_first() =~= all.skip(i + 1));
        }
        match fresh.apply_block(&branch[i], reward, verified) {
            Ok(_) => {},
            Err(e) => {
                return Err(e);
            },
        }
        i = i + 1;
    }
    assert(all.skip(i as int) =~= Seq::empty());
    Ok(fresh)
}

/// The spends of the stored blocks that the branch leaves behind.
fn collect_orphans(store: &Vec<Block>, branch: &Vec<Block>) -> (r: Vec<Transaction>)
    ensures
        txs_of(r@) == orphaned_txs(blocks_of(store@), blocks_of(branch@)),
{
    let ghost all = blocks_of(store@);
    let ghost won = blocks_of(branch@);
    let mut out: Vec<Transaction> = Vec::new();
    let mut i: usize = 0;
    assert(all.take(0) =~= Seq::empty());
    assert(txs_of(out@) =~= Seq::empty());
    while i < store.len()
        invariant
            i <= store@.len(),
            all == blocks_of(store@),
            won == blocks_of(branch@),
            txs_of(out@) == orphaned_txs(all.take(i as int), won),
        decreases store@.len() - i,
    {
        proof {
            assert(all.take(i + 1).drop_last() =~= all.take(i as int));
            assert(all.take(i + 1).last() == all[i as int]);
        }
        let b: &Block = &store[i];
        let h: String = b.hash();
        if b.height > 0 && find_block(branch, &h).is_none() {
            let ghost before = txs_of(out@);
            let ghost list = b@.transactions;
            let ghost rest = behind_coinbase(list);
            let mut k: usize = 1;
            assert(before + rest.take(0) =~= before);
            while k < b.transactions.len()
                invariant
                    1 <= k,
                    k <= b.transactions@.len() || k == 1,
                    list == txs_of(b.transactions@),
                    rest == behind_coinbase(list),
                    txs_of(out@) == before + rest.take(k - 1),
                decreases b.transactions@.len() - k,
            {
                let ghost was = txs_of(out@);
                out.push(b.transactions[k].clone());
                k = k + 1;
                proof {
                    assert(txs_of(out@) =~= was.push(list[k - 1]));
                    assert(rest.take(k - 1) =~= rest.take(k - 2).push(list[k - 1]));
                    assert(txs_of(out@) =~= before + rest.take(k - 1));
                }
            }
            assert(rest.take(k - 1) =~= rest);
        }
        i = i + 1;
    }
    assert(all.take(i as int) =~= all);
    out
}

/// Offers transactions to the pool and counts those that are admitted.
pub fn offer_all(
    pool: &mut Mempool,
    txs: &Vec<Transaction>,
    chain: &ChainState,
    verified: &Verified,
) -> (r: usize)
    ensures
        final(pool)@ == offered(old(pool)@, txs_of(txs@), chain@.utxos, verified@),
        r == admissions(old(pool)@, txs_of(txs@), chain@.utxos, verified@),
{
    let ghost before = pool@;
    let ghost all = txs_of(txs@);
    let mut count: usize = 0;
    let mut i: usize = 0;
    assert(all.take(0) =~= Seq::empty());
    while i < txs.len()
        invariant
            i <= txs@.len(),
            all == txs_of(txs@),
            count <= i,
            pool@ == offered(before, all.take(i as int), chain@.utxos, verified@),
            count == admissions(before, all.take(i as int), chain@.utxos, verified@),
        decreases txs@.len() - i,
    {
        proof {
            assert(all.take(i + 1).drop_last() =~= all.take(i as int));
            assert(all.take(i + 1).last() == all[i as int]);
        }
        if pool.accept(&txs[i], chain, verified).is_ok() {
            count = count + 1;
        }
        i = i + 1;
    }
    assert(all.take(i as int) =~= all);
    count
}

/// The number of transactions that are admitted when each is offered in turn.
pub open spec fn admissions(
    pool: Seq<TxModel>,
    txs: Seq<TxModel>,
    coins: Coins,
    verified: Set<ClaimModel>,
) -> nat
    decreases txs.len(),
{
    if txs.len() == 0 {
        0
    } else {
        let before = offered(pool, txs.drop_last(), coins, verified);
        admissions(pool, txs.drop_last(), coins, verified) + if accept_outcome(
            before,
            txs.last(),
            coins,
            verified,
        ) is Ok {
            1nat
        } else {
            0nat
        }
    }
}

/// The block that a node mines on: the next height on the tip, a coinbase to
/// the node's key, and every pooled transaction.
pub open spec fn template(n: NodeModel, now: u64) -> BlockModel {
    BlockModel {
        height: (n.chain.tip_height + 1) as u64,
        prev_hash: n.chain.tip_hash,
        timestamp: now,
        transactions: seq![
            coinbase_of(n.miner_key, n.reward, (n.chain.tip_height + 1) as u64),
        ] + n.pool,
        nonce: 0,
    }
}

/// Why a mined block does not become the node's tip.
pub enum MineFault {
    /// No nonce within the budget met the target.
    Exhausted,
    /// The tip moved while the block was mined.
    Stale,
    /// The chain refuses the block.
    Bad(NodeError),
}

/// Whether an error says why a mined block does not become the tip.
pub open spec fn says(e: NetError, f: MineFault) -> bool {
    match f {
        MineFault::Exhausted => e matches NetError::Io(io) && io.kind == IoKind::Other && io.text@
            == "mining budget exhausted"@,
        MineFault::Stale => e matches NetError::Io(io) && io.kind == IoKind::Other && io.text@
            == "stale block: tip moved while mining"@,
        MineFault::Bad(b) => e == NetError::BadBlock(b),
    }
}

/// What a mined block comes to: the node with the block on its tip and the pool
/// drained of it, or why not.
pub open spec fn commit_outcome(
    n: NodeModel,
    mined: BlockModel,
    verified: Set<ClaimModel>,
) -> Result<NodeModel, MineFault> {
    if n.chain.tip_height + 1 != mined.height || n.chain.tip_hash != mined.prev_hash {
        Err(MineFault::Stale)
    } else {
        match block_outcome(n.chain, mined, n.reward, verified) {
            Ok(next) => Ok(
                NodeModel {
                    chain: next,
                    blocks: n.blocks.push(mined),
                    pool: without_all_mined(n.pool, mined.transactions),
                    ..n
                },
            ),
            Err(e) => Err(MineFault::Bad(e)),
        }
    }
}

impl NodeState {
    /// The height of our tip.
    pub fn best_height(&self) -> (r: u64)
        ensures
            r == self@.chain.tip_height,
    {
        self.chain.tip_height
    }

    /// Store a block that does not extend our tip (a fork sibling). These are
    /// kept so a longest-chain switch can re-apply them later without a
    /// re-fetch.
    pub fn stash_block(&mut self, b: &Block)
        ensures
            final(self)@ == (NodeModel { blocks: stashed(old(self)@.blocks, b@), ..old(self)@ }),
    {
        let h: String = b.hash();
        let ghost was = blocks_of(self.blocks@);
        if find_block(&self.blocks, &h).is_none() {
            self.blocks.push(b.clone());
            assert(blocks_of(self.blocks@) =~= was.push(b@));
        }
    }

    /// Takes a block up, before fork choice.
    fn take_up(&mut self, incoming: &Block, verified: &Verified) -> (r: Result<(), NodeError>)
        ensures
            match taken_up(old(self)@, incoming@, verified@) {
                Ok(n) => r is Ok && final(self)@ == n,
                Err(e) => r == Err::<(), NodeError>(e) && final(self)@ == old(self)@,
            },
    {
        let ghost was = blocks_of(self.blocks@);
        if incoming.height <= self.chain.tip_height {
            let hash: String = incoming.hash();
            if incoming.height == self.chain.tip_height && !same_text(&hash, &self.chain.tip_hash) {
                self.stash_block(incoming);
            }
            return Ok(());
        }
        if same_text(&incoming.prev_hash, &self.chain.tip_hash) {
            match self.chain.apply_block(incoming, self.reward, verified) {
                Ok(_) => {},
                Err(e) => {
                    return Err(e);
                },
            }
        } else {
            match walk_back(&self.blocks, incoming) {
                Some(branch) => {
                    match replay_branch(&branch, self.chain.difficulty, self.reward, verified) {
                        Ok(_) => {},
                        Err(e) => {
                            return Err(e);
                        },
                    }
                },
                None => {
                    self.stash_block(incoming);
                    return Ok(());
                },
            }
        }
        self.blocks.push(incoming.clone());
        assert(blocks_of(self.blocks@) =~= was.push(incoming@));
        Ok(())
    }

    /// Goes over to the tallest stored branch that is fully known and replays,
    /// if it is taller than our tip.
    fn go_over(&mut self, verified: &Verified)
        ensures
            final(self)@ == on_longest(old(self)@, verified@),
    {
        let ghost n = self@;
        let zero: u32 = self.chain.difficulty;
        let mut best: Option<(Vec<Block>, ChainState)> = None;
        let mut top: u64 = 0;
        let mut i: usize = 0;
        while i < self.blocks.len()
            invariant
                i <= self.blocks@.len(),
                n == self@,
                zero == n.chain.difficulty,
                match best {
                    Some((branch, fresh)) => {
                        &&& tallest_of(n, i as nat, verified@) matches Some(x)
                        &&& x.height == top
                        &&& known_branch(n.blocks, x) == Some(blocks_of(branch@))
                        &&& replay(
                            empty_state(n.chain.difficulty),
                            blocks_of(branch@),
                            n.reward,
                            verified@,
                        ) == Ok::<StateModel, NodeError>(fresh@)
                    },
                    None => tallest_of(n, i as nat, verified@) is None && top == 0,
                },
            decreases self.blocks@.len() - i,
        {
            let height: u64 = self.blocks[i].height;
            assert(n.blocks[i as int] == self.blocks@[i as int]@);
            if height > self.chain.tip_height && height >= top {
                match walk_back(&self.blocks, &self.blocks[i]) {
                    Some(branch) => {
                        match replay_branch(&branch, zero, self.reward, verified) {
                            Ok(fresh) => {
                                best = Some((branch, fresh));
                                top = height;
                            },
                            Err(_) => {},
                        }
                    },
                    None => {},
                }
            }
            i = i + 1;
        }
        match best {
            Some((branch, fresh)) => {
                let orphans: Vec<Transaction> = collect_orphans(&self.blocks, &branch);
                offer_all(&mut self.pool, &orphans, &fresh, verified);
                self.blocks = branch;
                self.chain = fresh;
            },
            None => {},
        }
    }

    /// Validate + apply one incoming block.
    ///
    /// Fork choice: a block is applied when it extends our tip. A sibling at
    /// the same height is stashed, and so is a taller block with a missing
    /// ancestor. Then, whichever block completed it, a stored branch that is
    /// fully known, valid and taller than our tip triggers a REORG: the chain
    /// is replayed along the tallest such branch. A refused block leaves the
    /// node as it was.
    pub fn apply_incoming(&mut self, incoming: &Block, verified: &Verified) -> (r: Result<
        (),
        NetError,
    >)
        ensures
            match incoming_outcome(old(self)@, incoming@, verified@) {
                Ok(n) => r is Ok && final(self)@ == n,
                Err(e) => r == Err::<(), NetError>(NetError::BadBlock(e)) && final(self)@ == old(
                    self,
                )@,
            },
    {
        match self.take_up(incoming, verified) {
            Ok(_) => {
                self.go_over(verified);
                Ok(())
            },
            Err(e) => Err(NetError::BadBlock(e)),
        }
    }

    /// The block to mine on: the next on the tip, packing every pooled
    /// transaction behind the coinbase.
    pub fn mining_template(&self, now: u64) -> (r: Block)
        requires
            self@.chain.tip_height < u64::MAX,
        ensures
            r@ == template(self@, now),
    {
        let height: u64 = self.chain.tip_height + 1;
        let mut transactions: Vec<Transaction> = Vec::new();
        transactions.push(coinbase(copy_bytes(&self.miner_key), self.reward, height));
        let pooled: Vec<&Transaction> = self.pool.txs();
        let ghost first = coinbase_of(self.miner_key@, self.reward, height);
        let mut i: usize = 0;
        assert(txs_of(transactions@) =~= seq![first] + self.pool@.take(0));
        while i < pooled.len()
            invariant
                i <= pooled@.len(),
                tx_refs(pooled@) == self.pool@,
                txs_of(transactions@) == seq![first] + self.pool@.take(i as int),
            decreases pooled@.len() - i,
        {
            let ghost was = txs_of(transactions@);
            assert(self.pool@[i as int] == tx_refs(pooled@)[i as int]);
            transactions.push(pooled[i].clone());
            i = i + 1;
            proof {
                assert(txs_of(transactions@) =~= was.push(self.pool@[i - 1]));
                assert(txs_of(transactions@) =~= seq![first] + self.pool@.take(i as int));
            }
        }
        assert(tx_refs(pooled@).len() == pooled@.len());
        assert(self.pool@.take(i as int) =~= self.pool@);
        Block {
            height,
            prev_hash: copy_text(&self.chain.tip_hash),
            timestamp: now,
            transactions,
            nonce: 0,
        }
    }

    /// Put a mined block on the tip and drain the pool of its transactions. The
    /// tip may have moved while the block was mined; then the block is stale
    /// and nothing changes.
    pub fn commit_mined(&mut self, mined: &Block, verified: &Verified) -> (r: Result<(), NetError>)
        ensures
            match commit_outcome(old(self)@, mined@, verified@) {
                Ok(n) => r is Ok && final(self)@ == n,
                Err(f) => (r matches Err(e) && says(e, f)) && final(self)@ == old(self)@,
            },
    {
        if self.chain.tip_height == u64::MAX || self.chain.tip_height + 1 != mined.height
            || !same_text(&self.chain.tip_hash, &mined.prev_hash) {
            return Err(
                NetError::Io(
                    IoError {
                        kind: IoKind::Other,
                        text: copy_text("stale block: tip moved while mining"),
                    },
                ),
            );
        }
        let ghost was = blocks_of(self.blocks@);
        match self.chain.apply_block(mined, self.reward, verified) {
            Ok(_) => {
                self.blocks.push(mined.clone());
                assert(blocks_of(self.blocks@) =~= was.push(mined@));
                self.pool.remove_mined_txs(mined);
                Ok(())
            },
            Err(e) => Err(NetError::BadBlock(e)),
        }
    }
}

/// What mining one block comes to.
pub open spec fn mine_outcome(
    n: NodeModel,
    now: u64,
    nonce: Option<u64>,
    verified: Set<ClaimModel>,
) -> Result<(BlockModel, NodeModel), MineFault> {
    match nonce {
        None => Err(MineFault::Exhausted),
        Some(k) => {
            let mined = with_nonce(template(n, now), k);
            match commit_outcome(n, mined, verified) {
                Ok(next) => Ok((mined, next)),
                Err(f) => Err(f),
            }
        },
    }
}

/// Whether `nonce` is the first below `max_nonce` that meets the target, or
/// none does and it is `None`.
pub open spec fn first_nonce(
    b: BlockModel,
    difficulty: u32,
    max_nonce: u64,
    nonce: Option<u64>,
) -> bool {
    match nonce {
        Some(k) => {
            &&& k < max_nonce
            &&& has_work(with_nonce(b, k), difficulty)
            &&& forall|m: u64| m < k ==> !has_work(#[trigger] with_nonce(b, m), difficulty)
        },
        None => forall|m: u64|
            m < max_nonce ==> !has_work(#[trigger] with_nonce(b, m), difficulty),
    }
}

/// Mine one block on the current tip, packing every pooled transaction
/// (coinbase first). On success the pool is drained of the mined txs.
/// Returns the mined block.
pub fn mine_one(
    state: &mut NodeState,
    difficulty: u32,
    max_nonce: u64,
    now: u64,
    verified: &Verified,
) -> (r: Result<Block, NetError>)
    requires
        old(state)@.chain.tip_height < u64::MAX,
    ensures
        exists|nonce: Option<u64>| #[trigger]
            first_nonce(template(old(state)@, now), difficulty, max_nonce, nonce) && match mine_outcome(
                old(state)@,
                now,
                nonce,
                verified@,
            ) {
                Ok((b, n)) => (r matches Ok(m) && m@ == b) && final(state)@ == n,
                Err(f) => (r matches Err(e) && says(e, f)) && final(state)@ == old(state)@,
            },
{
    let blk: Block = state.mining_template(now);
    let ghost t = blk@;
    match mine_block(blk, difficulty, max_nonce) {
        Some(mined) => {
            assert(first_nonce(t, difficulty, max_nonce, Some(mined.nonce)));
            match state.commit_mined(&mined, verified) {
                Ok(_) => Ok(mined),
                Err(e) => Err(e),
            }
        },
        None => {
            assert(first_nonce(t, difficulty, max_nonce, None));
            Err(
                NetError::Io(
                    IoError { kind: IoKind::Other, text: copy_text("mining budget exhausted") },
                ),
            )
        },
    }
}

} // verus!
