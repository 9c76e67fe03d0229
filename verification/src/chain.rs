//! The chain state: the unspent outputs and the tip, and what spends and
//! blocks do to them.
use vstd::prelude::*;

use crate::assoc::{assoc_map, has_key, keys_distinct, lemma_assoc_contains, lemma_assoc_push};
use crate::block::{block_hash, has_work, Block, BlockModel};
use crate::bytes::{copy_bytes, len_u32, same_bytes};
use crate::hashing::{hex_of, hex_text, lemma_hex_injective};
use crate::sig::{ClaimModel, Verified};
use crate::text::{copy_text, same_text};
use crate::tx::{
    tx_sighash, txid_of, txins, txouts, txs_of, Transaction, TxIn, TxInModel, TxModel, TxOut,
    TxOutModel,
};
use crate::utxo::{coin_total, lemma_total_insert, utxo_pairs, OutputKey, Utxo, UtxoSet};

verus! {

/// Errors the node can surface.
#[derive(Debug, Clone, Copy, PartialEq, Eq, Structural)]
pub enum NodeError {
    BadPrevHash,
    BadPoW,
    Overspend,
    BadSignature,
    DoubleSpend,
    UnknownUtxo,
}

impl NodeError {
    /// The error in words.
    pub open spec fn words(self) -> Seq<char> {
        match self {
            NodeError::BadPrevHash => "prev_hash does not chain"@,
            NodeError::BadPoW => "block does not meet PoW target"@,
            NodeError::Overspend => "outputs exceed inputs"@,
            NodeError::BadSignature => "PQ signature invalid"@,
            NodeError::DoubleSpend => "UTXO spent twice"@,
            NodeError::UnknownUtxo => "input references unknown UTXO"@,
        }
    }

    /// The error in words.
    pub fn describe(&self) -> (r: String)
        ensures
            r@ == self.words(),
    {
        match self {
            NodeError::BadPrevHash => copy_text("prev_hash does not chain"),
            NodeError::BadPoW => copy_text("block does not meet PoW target"),
            NodeError::Overspend => copy_text("outputs exceed inputs"),
            NodeError::BadSignature => copy_text("PQ signature invalid"),
            NodeError::DoubleSpend => copy_text("UTXO spent twice"),
            NodeError::UnknownUtxo => copy_text("input references unknown UTXO"),
        }
    }
}

/// The unspent outputs by name.
pub type Coins = Map<OutputKey, TxOutModel>;

// ---------------------------------------------------------------------------
// spends
// ---------------------------------------------------------------------------

/// The name of the output that an input spends.
pub open spec fn input_key(i: TxInModel) -> OutputKey {
    (hex_of(i.prev_txid), i.vout)
}

/// What has to be checked before an input may spend an output: that the
/// input's signature over the transaction's sighash holds under the output's
/// key.
pub open spec fn input_claim(sighash: Seq<u8>, i: TxInModel, coin: TxOutModel) -> ClaimModel {
    ClaimModel { pubkey: coin.pubkey, message: sighash, signature: i.signature }
}

/// What is wrong with the first input that is not in order: it spends an
/// output that does not exist, or its signature was not found to hold.
pub open spec fn inputs_fault(
    coins: Coins,
    sighash: Seq<u8>,
    inputs: Seq<TxInModel>,
    verified: Set<ClaimModel>,
) -> Option<NodeError>
    decreases inputs.len(),
{
    if inputs.len() == 0 {
        None
    } else if !coins.contains_key(input_key(inputs[0])) {
        Some(NodeError::UnknownUtxo)
    } else if !verified.contains(input_claim(sighash, inputs[0], coins[input_key(inputs[0])])) {
        Some(NodeError::BadSignature)
    } else {
        inputs_fault(coins, sighash, inputs.drop_first(), verified)
    }
}

/// The amounts of the outputs that the inputs spend, summed.
pub open spec fn input_sum(coins: Coins, inputs: Seq<TxInModel>) -> nat
    decreases inputs.len(),
{
    if inputs.len() == 0 {
        0
    } else {
        input_sum(coins, inputs.drop_last()) + coins[input_key(inputs.last())].value as nat
    }
}

/// The amounts of the outputs, summed.
pub open spec fn output_sum(outputs: Seq<TxOutModel>) -> nat
    decreases outputs.len(),
{
    if outputs.len() == 0 {
        0
    } else {
        output_sum(outputs.drop_last()) + outputs.last().value as nat
    }
}

/// Whether two inputs spend the same output.
pub open spec fn spends_twice(inputs: Seq<TxInModel>) -> bool {
    exists|i: int, j: int|
        0 <= i < j < inputs.len() && input_key(#[trigger] inputs[i]) == input_key(
            #[trigger] inputs[j],
        )
}

/// Whether a transaction may spend: every input is in order, the outputs do
/// not exceed the inputs, and no output is spent twice.
pub open spec fn spend_verdict(coins: Coins, t: TxModel, verified: Set<ClaimModel>) -> Result<
    (),
    NodeError,
> {
    match inputs_fault(coins, tx_sighash(t), t.inputs, verified) {
        Some(e) => Err(e),
        None => if output_sum(t.outputs) > input_sum(coins, t.inputs) {
            Err(NodeError::Overspend)
        } else if spends_twice(t.inputs) {
            Err(NodeError::DoubleSpend)
        } else {
            Ok(())
        },
    }
}

/// The outputs that are left when the inputs are spent.
pub open spec fn without_inputs(coins: Coins, inputs: Seq<TxInModel>) -> Coins
    decreases inputs.len(),
{
    if inputs.len() == 0 {
        coins
    } else {
        without_inputs(coins, inputs.drop_last()).remove(input_key(inputs.last()))
    }
}

/// The index that names the output at position `i`: its low 32 bits.
pub open spec fn output_index(i: int) -> u32 {
    (i % 0x1_0000_0000) as u32
}

/// The outputs with those of a transaction added, in order.
pub open spec fn with_outputs(coins: Coins, txid: Seq<char>, outputs: Seq<TxOutModel>) -> Coins
    decreases outputs.len(),
{
    if outputs.len() == 0 {
        coins
    } else {
        with_outputs(coins, txid, outputs.drop_last()).insert(
            (txid, output_index(outputs.len() - 1)),
            outputs.last(),
        )
    }
}

/// The outputs after a spend.
pub open spec fn after_spend(coins: Coins, t: TxModel) -> Coins {
    with_outputs(without_inputs(coins, t.inputs), txid_of(t), t.outputs)
}

/// What a spend comes to: the outputs after it, or why it is refused.
pub open spec fn spend_outcome(coins: Coins, t: TxModel, verified: Set<ClaimModel>) -> Result<
    Coins,
    NodeError,
> {
    match spend_verdict(coins, t, verified) {
        Ok(_) => Ok(after_spend(coins, t)),
        Err(e) => Err(e),
    }
}

/// What spends come to, one after the other, up to the first refusal.
pub open spec fn spends_outcome(
    coins: Coins,
    txs: Seq<TxModel>,
    verified: Set<ClaimModel>,
) -> Result<Coins, NodeError>
    decreases txs.len(),
{
    if txs.len() == 0 {
        Ok(coins)
    } else {
        match spend_outcome(coins, txs[0], verified) {
            Ok(next) => spends_outcome(next, txs.drop_first(), verified),
            Err(e) => Err(e),
        }
    }
}

/// Whether two inputs of a list spend the same output.
fn has_repeat(inputs: &Vec<TxIn>) -> (r: bool)
    ensures
        r == spends_twice(txins(inputs@)),
{
    let ghost all = txins(inputs@);
    let mut i: usize = 0;
    while i < inputs.len()
        invariant
            i <= inputs@.len(),
            all == txins(inputs@),
            forall|a: int, b: int|
                0 <= a < b < all.len() && a < i ==> input_key(#[trigger] all[a]) != input_key(
                    #[trigger] all[b],
                ),
        decreases inputs@.len() - i,
    {
        let mut j: usize = i + 1;
        while j < inputs.len()
            invariant
                i < inputs@.len(),
                i < j <= inputs@.len(),
                all == txins(inputs@),
                forall|b: int| i < b < j ==> input_key(all[i as int]) != input_key(#[trigger] all[b]),
            decreases inputs@.len() - j,
        {
            if inputs[i].vout == inputs[j].vout && same_bytes(
                inputs[i].prev_txid.as_slice(),
                inputs[j].prev_txid.as_slice(),
            ) {
                assert(input_key(all[i as int]) == input_key(all[j as int]));
                return true;
            }
            proof {
                if input_key(all[i as int]) == input_key(all[j as int]) {
                    lemma_hex_injective(inputs@[i as int].prev_txid@, inputs@[j as int].prev_txid@);
                }
            }
            j = j + 1;
        }
        i = i + 1;
    }
    false
}

/// Whether a transaction may spend from the given outputs.
fn check_spend(coins: &UtxoSet, tx: &Transaction, verified: &Verified) -> (r: Result<
    (),
    NodeError,
>)
    ensures
        r == spend_verdict(coins@, tx@, verified@),
{
    let sighash: [u8; 32] = tx.sighash();
    let ghost ins = tx@.inputs;
    let ghost outs = tx@.outputs;
    let mut sum_in: u128 = 0;
    let mut i: usize = 0;
    assert(ins.skip(0) =~= ins);
    assert(ins.take(0) =~= Seq::empty());
    while i < tx.inputs.len()
        invariant
            i <= tx.inputs@.len(),
            ins == txins(tx.inputs@),
            ins == tx@.inputs,
            sighash@ == tx_sighash(tx@),
            sum_in == input_sum(coins@, ins.take(i as int)),
            sum_in <= i * 0xffff_ffff_ffff_ffff,
            inputs_fault(coins@, sighash@, ins, verified@) == inputs_fault(
                coins@,
                sighash@,
                ins.skip(i as int),
                verified@,
            ),
        decreases tx.inputs@.len() - i,
    {
        let txin: &TxIn = &tx.inputs[i];
        let name: String = hex_text(txin.prev_txid.as_slice());
        proof {
            assert(ins.skip(i as int)[0] == ins[i as int]);
            assert(ins.skip(i as int).drop_first() =~= ins.skip(i + 1));
            assert(ins.take(i + 1).drop_last() =~= ins.take(i as int));
        }
        match coins.get(&name, txin.vout) {
            None => {
                return Err(NodeError::UnknownUtxo);
            },
            Some(u) => {
                if !verified.holds(&u.pubkey, sighash.as_slice(), &txin.signature) {
                    return Err(NodeError::BadSignature);
                }
                sum_in = sum_in + u.value as u128;
            },
        }
        i = i + 1;
    }
    assert(ins.take(i as int) =~= ins);
    let mut sum_out: u128 = 0;
    let mut k: usize = 0;
    assert(outs.take(0) =~= Seq::empty());
    while k < tx.outputs.len()
        invariant
            k <= tx.outputs@.len(),
            outs == txouts(tx.outputs@),
            sum_out == output_sum(outs.take(k as int)),
            sum_out <= k * 0xffff_ffff_ffff_ffff,
        decreases tx.outputs@.len() - k,
    {
        sum_out = sum_out + tx.outputs[k].value as u128;
        k = k + 1;
        assert(outs.take(k as int).drop_last() =~= outs.take(k - 1));
    }
    assert(outs.take(k as int) =~= outs);
    if sum_out > sum_in {
        return Err(NodeError::Overspend);
    }
    if has_repeat(&tx.inputs) {
        return Err(NodeError::DoubleSpend);
    }
    Ok(())
}

/// Takes the spent outputs out and adds the made ones.
fn commit_spend(coins: &mut UtxoSet, tx: &Transaction)
    ensures
        final(coins)@ == after_spend(old(coins)@, tx@),
{
    let ghost before = coins@;
    let ghost ins = tx@.inputs;
    let ghost outs = tx@.outputs;
    let mut i: usize = 0;
    assert(ins.take(0) =~= Seq::empty());
    while i < tx.inputs.len()
        invariant
            i <= tx.inputs@.len(),
            ins == txins(tx.inputs@),
            coins@ == without_inputs(before, ins.take(i as int)),
        decreases tx.inputs@.len() - i,
    {
        let name: String = hex_text(tx.inputs[i].prev_txid.as_slice());
        coins.remove(&name, tx.inputs[i].vout);
        i = i + 1;
        assert(ins.take(i as int).drop_last() =~= ins.take(i - 1));
    }
    assert(ins.take(i as int) =~= ins);
    let ghost mid = coins@;
    let txid: String = tx.txid();
    let mut k: usize = 0;
    assert(outs.take(0) =~= Seq::empty());
    while k < tx.outputs.len()
        invariant
            k <= tx.outputs@.len(),
            outs == txouts(tx.outputs@),
            coins@ == with_outputs(mid, txid@, outs.take(k as int)),
        decreases tx.outputs@.len() - k,
    {
        let out: &TxOut = &tx.outputs[k];
        let index: u32 = len_u32(k);
        coins.insert(copy_text(&txid), index, out.value, copy_bytes(&out.pubkey));
        k = k + 1;
        proof {
            assert(index == output_index(k - 1));
            assert(outs.take(k as int).drop_last() =~= outs.take(k - 1));
            assert(outs.take(k as int).last() == out@);
        }
    }
    assert(outs.take(k as int) =~= outs);
}

/// The outputs after every transaction behind the first has spent, or why one
/// of them is refused.
fn spend_all(coins: &UtxoSet, txs: &Vec<Transaction>, verified: &Verified) -> (r: Result<
    UtxoSet,
    NodeError,
>)
    requires
        txs@.len() > 0,
    ensures
        match spends_outcome(coins@, txs_of(txs@).drop_first(), verified@) {
            Ok(m) => r matches Ok(c) && c@ == m,
            Err(e) => r == Err::<UtxoSet, NodeError>(e),
        },
{
    let ghost spends = txs_of(txs@).drop_first();
    let mut left: UtxoSet = coins.clone();
    let mut i: usize = 1;
    assert(spends.skip(0) =~= spends);
    while i < txs.len()
        invariant
            1 <= i <= txs@.len(),
            spends == txs_of(txs@).drop_first(),
            spends_outcome(coins@, spends, verified@) == spends_outcome(
                left@,
                spends.skip(i - 1),
                verified@,
            ),
        decreases txs@.len() - i,
    {
        let tx: &Transaction = &txs[i];
        proof {
            assert(spends.skip(i - 1)[0] == tx@);
            assert(spends.skip(i - 1).drop_first() =~= spends.skip(i as int));
        }
        match check_spend(&left, tx, verified) {
            Ok(_) => {
                commit_spend(&mut left, tx);
            },
            Err(e) => {
                return Err(e);
            },
        }
        i = i + 1;
    }
    assert(spends.skip(i - 1) =~= Seq::empty());
    Ok(left)
}

// ---------------------------------------------------------------------------
// state
// ---------------------------------------------------------------------------

/// The unspent outputs and the tip of the chain.
#[derive(Debug)]
pub struct ChainState {
    pub utxos: UtxoSet,
    pub tip_height: u64,
    pub tip_hash: String,
    pub total_supply: u64,
    pub difficulty: u32,
}

/// The contents of a [`ChainState`].
pub struct StateModel {
    pub utxos: Coins,
    pub tip_height: u64,
    pub tip_hash: Seq<char>,
    pub total_supply: u64,
    pub difficulty: u32,
}

impl View for ChainState {
    type V = StateModel;

    open spec fn view(&self) -> StateModel {
        StateModel {
            utxos: self.utxos@,
            tip_height: self.tip_height,
            tip_hash: self.tip_hash@,
            total_supply: self.total_supply,
            difficulty: self.difficulty,
        }
    }
}

/// The state before the first block.
pub open spec fn empty_state(difficulty: u32) -> StateModel {
    StateModel {
        utxos: Map::empty(),
        tip_height: 0,
        tip_hash: Seq::empty(),
        total_supply: 0,
        difficulty,
    }
}

/// What appending a block comes to: the state after it, or why the block is
/// refused. It has to follow the tip and carry the work; its first transaction
/// mints at most the reward; every other one spends, in order. A block whose
/// reward would take the supply past what 64 bits hold is refused as well.
pub open spec fn block_outcome(
    s: StateModel,
    b: BlockModel,
    reward: u64,
    verified: Set<ClaimModel>,
) -> Result<StateModel, NodeError> {
    if b.height != s.tip_height + 1 || b.prev_hash != s.tip_hash {
        Err(NodeError::BadPrevHash)
    } else if !has_work(b, s.difficulty) {
        Err(NodeError::BadPoW)
    } else if b.transactions.len() == 0 {
        Ok(StateModel { tip_height: b.height, tip_hash: block_hash(b), ..s })
    } else if b.transactions[0].outputs.len() == 0 || b.transactions[0].outputs[0].value > reward {
        Err(NodeError::Overspend)
    } else {
        match spends_outcome(s.utxos, b.transactions.drop_first(), verified) {
            Err(e) => Err(e),
            Ok(coins) => {
                let minted = b.transactions[0].outputs[0];
                if s.total_supply + minted.value > u64::MAX {
                    Err(NodeError::Overspend)
                } else {
                    Ok(
                        StateModel {
                            utxos: coins.insert((txid_of(b.transactions[0]), 0), minted),
                            tip_height: b.height,
                            tip_hash: block_hash(b),
                            total_supply: (s.total_supply + minted.value) as u64,
                            difficulty: s.difficulty,
                        },
                    )
                }
            },
        }
    }
}

/// The outputs under a key.
pub open spec fn coins_under(coins: Coins, pubkey: Seq<u8>) -> Coins {
    coins.restrict(Set::new(|k: OutputKey| coins.contains_key(k) && coins[k].pubkey == pubkey))
}

impl Default for ChainState {
    fn default() -> (r: Self)
        ensures
            r@ == empty_state(0),
    {
        ChainState::new(0)
    }
}

impl Clone for ChainState {
    fn clone(&self) -> (r: Self)
        ensures
            r@ == self@,
    {
        ChainState {
            utxos: self.utxos.clone(),
            tip_height: self.tip_height,
            tip_hash: copy_text(&self.tip_hash),
            total_supply: self.total_supply,
            difficulty: self.difficulty,
        }
    }
}

impl ChainState {
    /// The state before the first block.
    pub fn new(difficulty: u32) -> (r: Self)
        ensures
            r@ == empty_state(difficulty),
    {
        let r = ChainState {
            utxos: UtxoSet::new(),
            tip_height: 0,
            tip_hash: String::new(),
            total_supply: 0,
            difficulty,
        };
        assert(r.tip_hash@ =~= Seq::empty());
        r
    }

    /// Whether a transaction may spend from the current outputs. Reads only.
    pub fn validate_spend(&self, tx: &Transaction, verified: &Verified) -> (r: Result<
        (),
        NodeError,
    >)
        ensures
            r == spend_verdict(self@.utxos, tx@, verified@),
    {
        check_spend(&self.utxos, tx, verified)
    }

    /// Verify and apply one spend transaction against the UTXO set. A refused
    /// transaction leaves the state as it was.
    pub fn apply_spend(&mut self, tx: &Transaction, verified: &Verified) -> (r: Result<
        (),
        NodeError,
    >)
        ensures
            r == spend_verdict(old(self)@.utxos, tx@, verified@),
            final(self)@ == (if r is Ok {
                StateModel { utxos: after_spend(old(self)@.utxos, tx@), ..old(self)@ }
            } else {
                old(self)@
            }),
    {
        match check_spend(&self.utxos, tx, verified) {
            Ok(_) => {
                commit_spend(&mut self.utxos, tx);
                Ok(())
            },
            Err(e) => Err(e),
        }
    }

    /// Append a validated block: chaining, PoW, coinbase, every spend checked.
    /// A refused block leaves the state as it was.
    pub fn apply_block(&mut self, block: &Block, reward: u64, verified: &Verified) -> (r: Result<
        (),
        NodeError,
    >)
        ensures
            match block_outcome(old(self)@, block@, reward, verified@) {
                Ok(next) => r is Ok && final(self)@ == next,
                Err(e) => r == Err::<(), NodeError>(e) && final(self)@ == old(self)@,
            },
    {
        if self.tip_height == u64::MAX || block.height != self.tip_height + 1 || !same_text(
            &block.prev_hash,
            &self.tip_hash,
        ) {
            return Err(NodeError::BadPrevHash);
        }
        if !block.meets_target(self.difficulty) {
            return Err(NodeError::BadPoW);
        }
        let hash: String = block.hash();
        if block.transactions.len() == 0 {
            self.tip_height = block.height;
            self.tip_hash = hash;
            return Ok(());
        }
        let cb: &Transaction = &block.transactions[0];
        if cb.outputs.len() == 0 {
            return Err(NodeError::Overspend);
        }
        let minted: u64 = cb.outputs[0].value;
        if minted > reward {
            return Err(NodeError::Overspend);
        }
        let mut coins: UtxoSet = match spend_all(&self.utxos, &block.transactions, verified) {
            Ok(c) => c,
            Err(e) => {
                return Err(e);
            },
        };
        if minted > u64::MAX - self.total_supply {
            return Err(NodeError::Overspend);
        }
        coins.insert(cb.txid(), 0, minted, copy_bytes(&cb.outputs[0].pubkey));
        self.utxos = coins;
        self.total_supply = self.total_supply + minted;
        self.tip_height = block.height;
        self.tip_hash = hash;
        Ok(())
    }

    /// The outputs under a key, each once.
    pub fn utxos_of(&self, pubkey: &[u8]) -> (r: Vec<Utxo>)
        ensures
            keys_distinct(utxo_pairs(r@)),
            assoc_map(utxo_pairs(r@)) == coins_under(self@.utxos, pubkey@),
    {
        let entries: &Vec<Utxo> = self.utxos.entries();
        let ghost pairs = utxo_pairs(entries@);
        let mut out: Vec<Utxo> = Vec::new();
        let mut i: usize = 0;
        assert(pairs.take(0) =~= Seq::empty());
        assert(utxo_pairs(out@) =~= Seq::empty());
        assert(coins_under(Map::empty(), pubkey@) =~= Map::empty());
        while i < entries.len()
            invariant
                i <= entries@.len(),
                pairs == utxo_pairs(entries@),
                keys_distinct(pairs),
                keys_distinct(utxo_pairs(out@)),
                assoc_map(utxo_pairs(out@)) == coins_under(
                    assoc_map(pairs.take(i as int)),
                    pubkey@,
                ),
            decreases entries@.len() - i,
        {
            proof {
                lemma_under_step(pairs, i as int, pubkey@);
            }
            if same_bytes(&entries[i].pubkey, pubkey) {
                let ghost was = utxo_pairs(out@);
                let u: Utxo = entries[i].clone();
                proof {
                    lemma_assoc_push(was, u.key(), u.coin());
                }
                out.push(u);
                assert(utxo_pairs(out@) =~= was.push((u.key(), u.coin())));
            }
            i = i + 1;
        }
        assert(pairs.take(i as int) =~= pairs);
        out
    }

    /// The amounts of the outputs under a key, summed.
    pub fn balance_of(&self, pubkey: &[u8]) -> (r: u128)
        ensures
            r == coin_total(coins_under(self@.utxos, pubkey@)),
    {
        let entries: &Vec<Utxo> = self.utxos.entries();
        let ghost pairs = utxo_pairs(entries@);
        let mut sum: u128 = 0;
        let mut i: usize = 0;
        assert(pairs.take(0) =~= Seq::empty());
        assert(coins_under(Map::empty(), pubkey@) =~= Map::empty());
        while i < entries.len()
            invariant
                i <= entries@.len(),
                pairs == utxo_pairs(entries@),
                keys_distinct(pairs),
                sum == coin_total(coins_under(assoc_map(pairs.take(i as int)), pubkey@)),
                sum <= i * 0xffff_ffff_ffff_ffff,
            decreases entries@.len() - i,
        {
            proof {
                let m = coins_under(assoc_map(pairs.take(i as int)), pubkey@);
                lemma_under_step(pairs, i as int, pubkey@);
                lemma_total_insert(m, pairs[i as int].0, pairs[i as int].1);
                assert(m.remove(pairs[i as int].0) =~= m);
            }
            if same_bytes(&entries[i].pubkey, pubkey) {
                sum = sum + entries[i].value as u128;
            }
            i = i + 1;
        }
        assert(pairs.take(i as int) =~= pairs);
        sum
    }
}

/// What one more pair does to the outputs under a key.
proof fn lemma_under_step(pairs: Seq<(OutputKey, TxOutModel)>, i: int, pubkey: Seq<u8>)
    requires
        keys_distinct(pairs),
        0 <= i < pairs.len(),
    ensures
        ({
            let before = coins_under(assoc_map(pairs.take(i)), pubkey);
            let after = coins_under(assoc_map(pairs.take(i + 1)), pubkey);
            &&& before.dom().finite()
            &&& !before.contains_key(pairs[i].0)
            &&& after == (if pairs[i].1.pubkey == pubkey {
                before.insert(pairs[i].0, pairs[i].1)
            } else {
                before
            })
        }),
{
    let t = pairs.take(i);
    let n = pairs.take(i + 1);
    let k = pairs[i].0;
    assert(n.drop_last() =~= t);
    lemma_assoc_contains(t, k);
    assert(!has_key(t, k)) by {
        if has_key(t, k) {
            let j = choose|j: int| 0 <= j < t.len() && (#[trigger] t[j]).0 == k;
            assert(pairs[j].0 != pairs[i].0);
        }
    }
    let m = assoc_map(t);
    let before = coins_under(m, pubkey);
    let after = coins_under(m.insert(k, pairs[i].1), pubkey);
    assert(before.dom() =~= m.dom().intersect(before.dom()));
    if pairs[i].1.pubkey == pubkey {
        assert(after =~= before.insert(k, pairs[i].1));
    } else {
        assert(after =~= before);
    }
}

} // verus!
