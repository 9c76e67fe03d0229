//! What holds of the ledger as a whole: amounts are conserved, an output is
//! spent once and only under its key, and refused input changes nothing.
use vstd::prelude::*;

use crate::block::{behind_coinbase, block_digest, block_hash, zero_bits, BlockModel};
use crate::chain::{
    after_spend, block_outcome, empty_state, input_claim, input_key, input_sum, inputs_fault,
    output_index, output_sum, spend_verdict, spends_outcome, spends_twice, with_outputs,
    without_inputs, Coins, NodeError, StateModel,
};
use crate::hashing::{lemma_hex_round_trip, unhex};
use crate::sig::ClaimModel;
use crate::tx::{tx_sighash, txid_of, TxInModel, TxModel, TxOutModel};
use crate::utxo::{coin_total, lemma_total_insert, lemma_total_remove, OutputKey};

verus! {

// ---------------------------------------------------------------------------
// the inputs of an accepted spend
// ---------------------------------------------------------------------------

/// Whether some input of the list spends the output.
pub open spec fn spends(inputs: Seq<TxInModel>, k: OutputKey) -> bool {
    exists|i: int| 0 <= i < inputs.len() && input_key(#[trigger] inputs[i]) == k
}

/// Whether some transaction of the list spends the output.
pub open spec fn any_spends(txs: Seq<TxModel>, k: OutputKey) -> bool {
    exists|i: int| 0 <= i < txs.len() && spends((#[trigger] txs[i]).inputs, k)
}

/// Whether some transaction of the list has the identifier.
pub open spec fn any_named(txs: Seq<TxModel>, txid: Seq<char>) -> bool {
    exists|i: int| 0 <= i < txs.len() && txid_of(#[trigger] txs[i]) == txid
}

/// An input list is in order exactly if each input spends an output that
/// exists, under a signature that was found to hold.
pub proof fn lemma_inputs_in_order(
    coins: Coins,
    sighash: Seq<u8>,
    inputs: Seq<TxInModel>,
    verified: Set<ClaimModel>,
)
    ensures
        inputs_fault(coins, sighash, inputs, verified) is None <==> forall|i: int|
            0 <= i < inputs.len() ==> {
                &&& coins.contains_key(input_key(#[trigger] inputs[i]))
                &&& verified.contains(input_claim(sighash, inputs[i], coins[input_key(inputs[i])]))
            },
    decreases inputs.len(),
{
    if inputs.len() > 0 {
        let rest = inputs.drop_first();
        lemma_inputs_in_order(coins, sighash, rest, verified);
        if inputs_fault(coins, sighash, inputs, verified) is None {
            assert forall|i: int| 0 <= i < inputs.len() implies {
                &&& coins.contains_key(input_key(#[trigger] inputs[i]))
                &&& verified.contains(input_claim(sighash, inputs[i], coins[input_key(inputs[i])]))
            } by {
                if i > 0 {
                    assert(rest[i - 1] == inputs[i]);
                }
            }
        }
        if forall|i: int|
            0 <= i < inputs.len() ==> {
                &&& coins.contains_key(input_key(#[trigger] inputs[i]))
                &&& verified.contains(input_claim(sighash, inputs[i], coins[input_key(inputs[i])]))
            } {
            assert(input_key(inputs[0]) == input_key(inputs[0]));
            assert forall|i: int| 0 <= i < rest.len() implies {
                &&& coins.contains_key(input_key(#[trigger] rest[i]))
                &&& verified.contains(input_claim(sighash, rest[i], coins[input_key(rest[i])]))
            } by {
                assert(rest[i] == inputs[i + 1]);
            }
        }
    }
}

/// A spend is accepted only if each of its inputs spends an output that exists
/// and carries a signature over the transaction's sighash that was found to
/// hold under that output's key.
pub proof fn law_spend_is_authorized(coins: Coins, t: TxModel, verified: Set<ClaimModel>, i: int)
    requires
        spend_verdict(coins, t, verified) is Ok,
        0 <= i < t.inputs.len(),
    ensures
        coins.contains_key(input_key(t.inputs[i])),
        verified.contains(
            input_claim(tx_sighash(t), t.inputs[i], coins[input_key(t.inputs[i])]),
        ),
{
    lemma_inputs_in_order(coins, tx_sighash(t), t.inputs, verified);
    assert(coins.contains_key(input_key(t.inputs[i])));
}

// ---------------------------------------------------------------------------
// what a spend leaves
// ---------------------------------------------------------------------------

proof fn lemma_without(coins: Coins, inputs: Seq<TxInModel>, k: OutputKey)
    ensures
        without_inputs(coins, inputs).contains_key(k) <==> coins.contains_key(k) && !spends(
            inputs,
            k,
        ),
        without_inputs(coins, inputs).contains_key(k) ==> without_inputs(coins, inputs)[k]
            == coins[k],
    decreases inputs.len(),
{
    if inputs.len() > 0 {
        let front = inputs.drop_last();
        lemma_without(coins, front, k);
        if spends(front, k) {
            let i = choose|i: int| 0 <= i < front.len() && input_key(#[trigger] front[i]) == k;
            assert(input_key(inputs[i]) == k);
        }
        if input_key(inputs.last()) == k {
            assert(input_key(inputs[inputs.len() - 1]) == k);
        }
        if spends(inputs, k) && input_key(inputs.last()) != k {
            let i = choose|i: int| 0 <= i < inputs.len() && input_key(#[trigger] inputs[i]) == k;
            assert(input_key(front[i]) == k);
        }
    }
}

proof fn lemma_with(coins: Coins, txid: Seq<char>, outputs: Seq<TxOutModel>, k: OutputKey)
    requires
        k.0 != txid,
    ensures
        with_outputs(coins, txid, outputs).contains_key(k) <==> coins.contains_key(k),
        coins.contains_key(k) ==> with_outputs(coins, txid, outputs)[k] == coins[k],
    decreases outputs.len(),
{
    if outputs.len() > 0 {
        lemma_with(coins, txid, outputs.drop_last(), k);
    }
}

/// After a spend the outputs that it spent are gone and all others are as they
/// were, but for those that carry the transaction's own identifier.
pub proof fn law_spend_touches_only_its_outputs(coins: Coins, t: TxModel, k: OutputKey)
    requires
        k.0 != txid_of(t),
    ensures
        after_spend(coins, t).contains_key(k) <==> coins.contains_key(k) && !spends(t.inputs, k),
        after_spend(coins, t).contains_key(k) ==> after_spend(coins, t)[k] == coins[k],
{
    lemma_without(coins, t.inputs, k);
    lemma_with(without_inputs(coins, t.inputs), txid_of(t), t.outputs, k);
}

/// A spend's outputs can be found under its identifier and their index.
pub proof fn law_spend_makes_its_outputs(coins: Coins, t: TxModel, i: int)
    requires
        0 <= i < t.outputs.len() <= 0x1_0000_0000,
    ensures
        after_spend(coins, t).contains_key((txid_of(t), i as u32)),
        after_spend(coins, t)[(txid_of(t), i as u32)] == t.outputs[i],
{
    lemma_makes(without_inputs(coins, t.inputs), txid_of(t), t.outputs, i);
}

proof fn lemma_makes(coins: Coins, txid: Seq<char>, outputs: Seq<TxOutModel>, i: int)
    requires
        0 <= i < outputs.len() <= 0x1_0000_0000,
    ensures
        with_outputs(coins, txid, outputs).contains_key((txid, i as u32)),
        with_outputs(coins, txid, outputs)[(txid, i as u32)] == outputs[i],
    decreases outputs.len(),
{
    let last = outputs.len() - 1;
    assert(output_index(last) == last as u32);
    if i < last {
        lemma_makes(coins, txid, outputs.drop_last(), i);
        assert(outputs.drop_last()[i] == outputs[i]);
    }
}

/// An output cannot be spent twice: once a spend of it was accepted, any other
/// transaction that spends it is refused.
pub proof fn law_no_double_spend(
    coins: Coins,
    first: TxModel,
    second: TxModel,
    k: OutputKey,
    verified: Set<ClaimModel>,
)
    requires
        spends(first.inputs, k),
        spends(second.inputs, k),
        k.0 != txid_of(first),
    ensures
        spend_verdict(after_spend(coins, first), second, verified) is Err,
{
    let left = after_spend(coins, first);
    law_spend_touches_only_its_outputs(coins, first, k);
    lemma_inputs_in_order(left, tx_sighash(second), second.inputs, verified);
    let i = choose|i: int|
        0 <= i < second.inputs.len() && input_key(#[trigger] second.inputs[i]) == k;
    assert(!left.contains_key(input_key(second.inputs[i])));
}

// ---------------------------------------------------------------------------
// amounts
// ---------------------------------------------------------------------------

proof fn lemma_without_total(coins: Coins, inputs: Seq<TxInModel>)
    requires
        coins.dom().finite(),
        !spends_twice(inputs),
        forall|i: int|
            0 <= i < inputs.len() ==> coins.contains_key(input_key(#[trigger] inputs[i])),
    ensures
        without_inputs(coins, inputs).dom().finite(),
        coin_total(without_inputs(coins, inputs)) + input_sum(coins, inputs) == coin_total(coins),
    decreases inputs.len(),
{
    if inputs.len() > 0 {
        let front = inputs.drop_last();
        let k = input_key(inputs.last());
        assert(!spends_twice(front)) by {
            if spends_twice(front) {
                let (i, j) = choose|i: int, j: int|
                    0 <= i < j < front.len() && input_key(#[trigger] front[i]) == input_key(
                        #[trigger] front[j],
                    );
                assert(input_key(inputs[i]) == input_key(inputs[j]));
            }
        }
        assert forall|i: int| 0 <= i < front.len() implies coins.contains_key(
            input_key(#[trigger] front[i]),
        ) by {
            assert(front[i] == inputs[i]);
        }
        lemma_without_total(coins, front);
        lemma_without(coins, front, k);
        assert(coins.contains_key(input_key(inputs[inputs.len() - 1])));
        assert(!spends(front, k)) by {
            if spends(front, k) {
                let i = choose|i: int| 0 <= i < front.len() && input_key(#[trigger] front[i]) == k;
                assert(input_key(inputs[i]) == input_key(inputs[inputs.len() - 1]));
            }
        }
        lemma_total_remove(without_inputs(coins, front), k);
    }
}

proof fn lemma_with_total(coins: Coins, txid: Seq<char>, outputs: Seq<TxOutModel>)
    requires
        coins.dom().finite(),
    ensures
        with_outputs(coins, txid, outputs).dom().finite(),
        coin_total(with_outputs(coins, txid, outputs)) <= coin_total(coins) + output_sum(outputs),
    decreases outputs.len(),
{
    if outputs.len() > 0 {
        lemma_with_total(coins, txid, outputs.drop_last());
        lemma_total_insert(
            with_outputs(coins, txid, outputs.drop_last()),
            (txid, output_index(outputs.len() - 1)),
            outputs.last(),
        );
    }
}

/// A spend makes no money: the unspent outputs are worth no more after it than
/// before.
pub proof fn law_spend_conserves(coins: Coins, t: TxModel, verified: Set<ClaimModel>)
    requires
        coins.dom().finite(),
        spend_verdict(coins, t, verified) is Ok,
    ensures
        after_spend(coins, t).dom().finite(),
        coin_total(after_spend(coins, t)) <= coin_total(coins),
{
    lemma_inputs_in_order(coins, tx_sighash(t), t.inputs, verified);
    lemma_without_total(coins, t.inputs);
    lemma_with_total(without_inputs(coins, t.inputs), txid_of(t), t.outputs);
}

proof fn lemma_spends_conserve(coins: Coins, txs: Seq<TxModel>, verified: Set<ClaimModel>)
    requires
        coins.dom().finite(),
        spends_outcome(coins, txs, verified) is Ok,
    ensures
        spends_outcome(coins, txs, verified)->Ok_0.dom().finite(),
        coin_total(spends_outcome(coins, txs, verified)->Ok_0) <= coin_total(coins),
    decreases txs.len(),
{
    if txs.len() > 0 {
        law_spend_conserves(coins, txs[0], verified);
        lemma_spends_conserve(after_spend(coins, txs[0]), txs.drop_first(), verified);
    }
}

/// Whether the unspent outputs are worth no more than what was minted.
pub open spec fn backed(s: StateModel) -> bool {
    s.utxos.dom().finite() && coin_total(s.utxos) <= s.total_supply
}

/// There is no premine: before the first block nothing is minted and nothing
/// can be spent.
pub proof fn law_no_premine(difficulty: u32)
    ensures
        backed(empty_state(difficulty)),
        empty_state(difficulty).total_supply == 0,
        coin_total(empty_state(difficulty).utxos) == 0,
{
}

/// No block inflates the supply: the unspent outputs stay worth no more than
/// what was minted, and a block mints at most the reward.
pub proof fn law_no_inflation(
    s: StateModel,
    b: BlockModel,
    reward: u64,
    verified: Set<ClaimModel>,
)
    requires
        backed(s),
        block_outcome(s, b, reward, verified) is Ok,
    ensures
        backed(block_outcome(s, b, reward, verified)->Ok_0),
        s.total_supply <= block_outcome(s, b, reward, verified)->Ok_0.total_supply
            <= s.total_supply + reward,
{
    if b.transactions.len() > 0 {
        let txs = b.transactions.drop_first();
        lemma_spends_conserve(s.utxos, txs, verified);
        lemma_total_insert(
            spends_outcome(s.utxos, txs, verified)->Ok_0,
            (txid_of(b.transactions[0]), 0),
            b.transactions[0].outputs[0],
        );
    }
}

// ---------------------------------------------------------------------------
// blocks
// ---------------------------------------------------------------------------

proof fn lemma_spends_fate(
    coins: Coins,
    txs: Seq<TxModel>,
    verified: Set<ClaimModel>,
    k: OutputKey,
)
    requires
        spends_outcome(coins, txs, verified) is Ok,
        !any_named(txs, k.0),
    ensures
        ({
            let next = spends_outcome(coins, txs, verified)->Ok_0;
            &&& next.contains_key(k) <==> coins.contains_key(k) && !any_spends(txs, k)
            &&& next.contains_key(k) ==> next[k] == coins[k]
            &&& any_spends(txs, k) ==> coins.contains_key(k) && exists|i: int, j: int|
                0 <= i < txs.len() && 0 <= j < (#[trigger] txs[i]).inputs.len() && input_key(
                    #[trigger] txs[i].inputs[j],
                ) == k && verified.contains(
                    input_claim(tx_sighash(txs[i]), txs[i].inputs[j], coins[k]),
                )
        }),
    decreases txs.len(),
{
    if txs.len() > 0 {
        let t = txs[0];
        let rest = txs.drop_first();
        let mid = after_spend(coins, t);
        assert(txid_of(txs[0]) != k.0);
        assert(!any_named(rest, k.0)) by {
            if any_named(rest, k.0) {
                let i = choose|i: int| 0 <= i < rest.len() && txid_of(#[trigger] rest[i]) == k.0;
                assert(txid_of(txs[i + 1]) == k.0);
            }
        }
        law_spend_touches_only_its_outputs(coins, t, k);
        lemma_spends_fate(mid, rest, verified, k);
        if spends(t.inputs, k) {
            assert(spends(txs[0].inputs, k));
            let j = choose|j: int| 0 <= j < t.inputs.len() && input_key(#[trigger] t.inputs[j]) == k;
            law_spend_is_authorized(coins, t, verified, j);
            assert(input_key(txs[0].inputs[j]) == k);
        }
        if any_spends(rest, k) {
            let i = choose|i: int| 0 <= i < rest.len() && spends((#[trigger] rest[i]).inputs, k);
            assert(spends(txs[i + 1].inputs, k));
            let (a, c) = choose|a: int, c: int|
                0 <= a < rest.len() && 0 <= c < (#[trigger] rest[a]).inputs.len() && input_key(
                    #[trigger] rest[a].inputs[c],
                ) == k && verified.contains(
                    input_claim(tx_sighash(rest[a]), rest[a].inputs[c], mid[k]),
                );
            assert(txs[a + 1] == rest[a]);
            assert(input_key(txs[a + 1].inputs[c]) == k);
        }
        if any_spends(txs, k) && !spends(t.inputs, k) {
            let i = choose|i: int| 0 <= i < txs.len() && spends((#[trigger] txs[i]).inputs, k);
            assert(i > 0);
            assert(spends(rest[i - 1].inputs, k));
        }
    }
}

/// What becomes of an output over a block none of whose transactions carries
/// the output's identifier: it stays as it was exactly if no transaction behind
/// the first spends it, and if one does, an input that names it carries a
/// signature that was found to hold under its key.
pub proof fn law_block_fate_of_output(
    s: StateModel,
    b: BlockModel,
    reward: u64,
    verified: Set<ClaimModel>,
    k: OutputKey,
)
    requires
        block_outcome(s, b, reward, verified) is Ok,
        !any_named(b.transactions, k.0),
    ensures
        ({
            let txs = behind_coinbase(b.transactions);
            let next = block_outcome(s, b, reward, verified)->Ok_0.utxos;
            &&& next.contains_key(k) <==> s.utxos.contains_key(k) && !any_spends(txs, k)
            &&& next.contains_key(k) ==> next[k] == s.utxos[k]
            &&& any_spends(txs, k) ==> s.utxos.contains_key(k) && exists|i: int, j: int|
                0 <= i < txs.len() && 0 <= j < (#[trigger] txs[i]).inputs.len() && input_key(
                    #[trigger] txs[i].inputs[j],
                ) == k && verified.contains(
                    input_claim(tx_sighash(txs[i]), txs[i].inputs[j], s.utxos[k]),
                )
        }),
{
    let txs = behind_coinbase(b.transactions);
    assert(!any_named(txs, k.0)) by {
        if any_named(txs, k.0) {
            let i = choose|i: int| 0 <= i < txs.len() && txid_of(#[trigger] txs[i]) == k.0;
            assert(txid_of(b.transactions[i + 1]) == k.0);
        }
    }
    if b.transactions.len() > 0 {
        assert(txid_of(b.transactions[0]) != k.0);
        lemma_spends_fate(s.utxos, txs, verified, k);
    }
}

/// The tip follows the accepted block, whose digest starts with as many zero
/// bits as the difficulty asks for; the difficulty stays.
pub proof fn law_tip_carries_work(
    s: StateModel,
    b: BlockModel,
    reward: u64,
    verified: Set<ClaimModel>,
)
    requires
        block_outcome(s, b, reward, verified) is Ok,
    ensures
        ({
            let next = block_outcome(s, b, reward, verified)->Ok_0;
            &&& next.tip_height == s.tip_height + 1
            &&& next.tip_hash == block_hash(b)
            &&& b.prev_hash == s.tip_hash
            &&& zero_bits(unhex(next.tip_hash)) >= s.difficulty
            &&& next.difficulty == s.difficulty
        }),
{
    lemma_hex_round_trip(block_digest(b));
}

// ---------------------------------------------------------------------------
// replay
// ---------------------------------------------------------------------------

/// What appending blocks comes to, one after the other, up to the first
/// refusal.
pub open spec fn replay(
    s: StateModel,
    blocks: Seq<BlockModel>,
    reward: u64,
    verified: Set<ClaimModel>,
) -> Result<StateModel, NodeError>
    decreases blocks.len(),
{
    if blocks.len() == 0 {
        Ok(s)
    } else {
        match block_outcome(s, blocks[0], reward, verified) {
            Ok(next) => replay(next, blocks.drop_first(), reward, verified),
            Err(e) => Err(e),
        }
    }
}

/// Blocks that can be appended one after the other have heights one after the
/// other.
pub proof fn lemma_replay_heights(
    s: StateModel,
    list: Seq<BlockModel>,
    reward: u64,
    verified: Set<ClaimModel>,
    i: int,
)
    requires
        replay(s, list, reward, verified) is Ok,
        0 <= i < list.len(),
    ensures
        list[i].height == s.tip_height + i + 1,
    decreases list.len(),
{
    if i > 0 {
        let next = block_outcome(s, list[0], reward, verified)->Ok_0;
        law_tip_carries_work(s, list[0], reward, verified);
        lemma_replay_heights(next, list.drop_first(), reward, verified, i - 1);
        assert(list.drop_first()[i - 1] == list[i]);
    }
}

/// A chain of any length that was accepted from the start is backed: its
/// unspent outputs are worth no more than what was minted, which is at most
/// the reward per block, and the tip stands as high as there are blocks.
pub proof fn law_replayed_chain_is_backed(
    s: StateModel,
    blocks: Seq<BlockModel>,
    reward: u64,
    verified: Set<ClaimModel>,
)
    requires
        backed(s),
        replay(s, blocks, reward, verified) is Ok,
    ensures
        ({
            let end = replay(s, blocks, reward, verified)->Ok_0;
            &&& backed(end)
            &&& end.total_supply <= s.total_supply + reward * blocks.len()
            &&& end.tip_height == s.tip_height + blocks.len()
            &&& end.difficulty == s.difficulty
        }),
    decreases blocks.len(),
{
    if blocks.len() > 0 {
        let next = block_outcome(s, blocks[0], reward, verified)->Ok_0;
        law_no_inflation(s, blocks[0], reward, verified);
        law_tip_carries_work(s, blocks[0], reward, verified);
        law_replayed_chain_is_backed(next, blocks.drop_first(), reward, verified);
        let n = blocks.len();
        assert(reward * n == reward + reward * (n - 1)) by (nonlinear_arith)
            requires
                n > 0,
        ;
    }
}

} // verus!
