//! What a spend, a block and a chain of blocks come to, said of their fields:
//! what is accepted, what is refused and why, and what is unspent afterwards.
use vstd::prelude::*;

use crate::block::{has_work, header_of, BlockModel};
use crate::chain::{
    after_spend, block_outcome, coins_under, empty_state, input_claim, input_key, input_sum,
    inputs_fault, output_index, output_sum, spend_verdict, spends_outcome, spends_twice,
    with_outputs, without_inputs, Coins, NodeError, StateModel,
};
use crate::hashing::{hex_of, lemma_hex_injective, sha256_of, sha256d_of};
use crate::ledger::{law_spend_touches_only_its_outputs, lemma_inputs_in_order, replay, spends};
use crate::sig::ClaimModel;
use crate::tx::{tx_preimage, tx_sighash, TxInModel, TxModel, TxOutModel};
use crate::utxo::{coin_total, lemma_total_insert, OutputKey};

verus! {

// ---------------------------------------------------------------------------
// one spend
// ---------------------------------------------------------------------------

/// Whether the input at `i` names an unspent output and carries a signature
/// over the double SHA-256 of the preimage that was found to hold under that
/// output's key.
pub open spec fn authorized(coins: Coins, t: TxModel, verified: Set<ClaimModel>, i: int) -> bool {
    let k = (hex_of(t.inputs[i].prev_txid), t.inputs[i].vout);
    &&& coins.contains_key(k)
    &&& verified.contains(
        ClaimModel {
            pubkey: coins[k].pubkey,
            message: sha256d_of(tx_preimage(t)),
            signature: t.inputs[i].signature,
        },
    )
}

/// Whether no two inputs name the same output.
pub open spec fn names_apart(t: TxModel) -> bool {
    forall|i: int, j: int|
        0 <= i < j < t.inputs.len() ==> (#[trigger] t.inputs[i]).prev_txid != (
        #[trigger] t.inputs[j]).prev_txid || t.inputs[i].vout != t.inputs[j].vout
}

proof fn lemma_sums(coins: Coins, t: TxModel)
    ensures
        output_sum(t.outputs) == t.outputs.fold_left(0int, |a: int, o: TxOutModel| a + o.value),
        input_sum(coins, t.inputs) == t.inputs.fold_left(
            0int,
            |a: int, i: TxInModel| a + coins[(hex_of(i.prev_txid), i.vout)].value,
        ),
    decreases t.outputs.len() + t.inputs.len(),
{
    if t.outputs.len() > 0 {
        lemma_sums(coins, TxModel { outputs: t.outputs.drop_last(), ..t });
    } else if t.inputs.len() > 0 {
        lemma_sums(coins, TxModel { inputs: t.inputs.drop_last(), ..t });
    }
}

proof fn lemma_names_apart(t: TxModel)
    ensures
        spends_twice(t.inputs) == !names_apart(t),
{
    if spends_twice(t.inputs) {
        let (i, j) = choose|i: int, j: int|
            0 <= i < j < t.inputs.len() && input_key(#[trigger] t.inputs[i]) == input_key(
                #[trigger] t.inputs[j],
            );
        lemma_hex_injective(t.inputs[i].prev_txid, t.inputs[j].prev_txid);
    }
    if !names_apart(t) {
        let (i, j) = choose|i: int, j: int|
            0 <= i < j < t.inputs.len() && (#[trigger] t.inputs[i]).prev_txid == (
            #[trigger] t.inputs[j]).prev_txid && t.inputs[i].vout == t.inputs[j].vout;
        assert(input_key(t.inputs[i]) == input_key(t.inputs[j]));
    }
}

/// A transaction is accepted exactly if each of its inputs is authorized, no two
/// name the same output, and its outputs together are worth no more than all
/// the outputs that it spends together.
pub proof fn law_spend_is_accepted_iff(coins: Coins, t: TxModel, verified: Set<ClaimModel>)
    ensures
        spend_verdict(coins, t, verified) is Ok <==> {
            &&& forall|i: int| 0 <= i < t.inputs.len() ==> #[trigger] authorized(coins, t, verified, i)
            &&& names_apart(t)
            &&& t.outputs.fold_left(0int, |a: int, o: TxOutModel| a + o.value)
                <= t.inputs.fold_left(
                0int,
                |a: int, i: TxInModel| a + coins[(hex_of(i.prev_txid), i.vout)].value,
            )
        },
{
    lemma_sums(coins, t);
    lemma_names_apart(t);
    lemma_inputs_in_order(coins, tx_sighash(t), t.inputs, verified);
    if inputs_fault(coins, tx_sighash(t), t.inputs, verified) is None {
        assert forall|i: int| 0 <= i < t.inputs.len() implies #[trigger] authorized(
            coins,
            t,
            verified,
            i,
        ) by {
            assert(coins.contains_key(input_key(t.inputs[i])));
        }
    } else {
        let i = choose|i: int|
            0 <= i < t.inputs.len() && !({
                &&& coins.contains_key(input_key(#[trigger] t.inputs[i]))
                &&& verified.contains(
                    input_claim(
                        tx_sighash(t),
                        t.inputs[i],
                        coins[input_key(t.inputs[i])],
                    ),
                )
            });
        assert(!authorized(coins, t, verified, i));
    }
}

proof fn lemma_first_fault(
    coins: Coins,
    sighash: Seq<u8>,
    inputs: Seq<TxInModel>,
    verified: Set<ClaimModel>,
    k: int,
)
    requires
        0 <= k <= inputs.len(),
        forall|i: int|
            0 <= i < k ==> coins.contains_key(input_key(#[trigger] inputs[i]))
                && verified.contains(
                input_claim(sighash, inputs[i], coins[input_key(inputs[i])]),
            ),
    ensures
        inputs_fault(coins, sighash, inputs, verified) == inputs_fault(
            coins,
            sighash,
            inputs.skip(k),
            verified,
        ),
    decreases k,
{
    if k == 0 {
        assert(inputs.skip(0) =~= inputs);
    } else {
        let rest = inputs.drop_first();
        assert(coins.contains_key(input_key(inputs[0])));
        assert forall|i: int| 0 <= i < k - 1 implies coins.contains_key(
            input_key(#[trigger] rest[i]),
        ) && verified.contains(
            input_claim(sighash, rest[i], coins[input_key(rest[i])]),
        ) by {
            assert(rest[i] == inputs[i + 1]);
        }
        lemma_first_fault(coins, sighash, rest, verified, k - 1);
        assert(rest.skip(k - 1) =~= inputs.skip(k));
    }
}

/// Why a transaction is refused: for the first input that is not authorized,
/// because the output is unknown or else because of the signature; if there is
/// no such input, because the outputs exceed the inputs, or else because two
/// inputs name the same output.
pub proof fn law_spend_is_refused_for(
    coins: Coins,
    t: TxModel,
    verified: Set<ClaimModel>,
    k: int,
)
    requires
        0 <= k <= t.inputs.len(),
        forall|i: int| 0 <= i < k ==> #[trigger] authorized(coins, t, verified, i),
        k < t.inputs.len() ==> !authorized(coins, t, verified, k),
    ensures
        ({
            let paid = t.outputs.fold_left(0int, |a: int, o: TxOutModel| a + o.value);
            let spent = t.inputs.fold_left(
                0int,
                |a: int, i: TxInModel| a + coins[(hex_of(i.prev_txid), i.vout)].value,
            );
            spend_verdict(coins, t, verified) == (if k < t.inputs.len() {
                if coins.contains_key((hex_of(t.inputs[k].prev_txid), t.inputs[k].vout)) {
                    Err::<(), NodeError>(NodeError::BadSignature)
                } else {
                    Err::<(), NodeError>(NodeError::UnknownUtxo)
                }
            } else if paid > spent {
                Err::<(), NodeError>(NodeError::Overspend)
            } else if !names_apart(t) {
                Err::<(), NodeError>(NodeError::DoubleSpend)
            } else {
                Ok::<(), NodeError>(())
            })
        }),
{
    lemma_sums(coins, t);
    lemma_names_apart(t);
    assert forall|i: int| 0 <= i < k implies coins.contains_key(input_key(#[trigger] t.inputs[i]))
        && verified.contains(
        input_claim(tx_sighash(t), t.inputs[i], coins[input_key(t.inputs[i])]),
    ) by {
        assert(authorized(coins, t, verified, i));
    }
    lemma_first_fault(coins, tx_sighash(t), t.inputs, verified, k);
    if k < t.inputs.len() {
        assert(t.inputs.skip(k)[0] == t.inputs[k]);
    }
}

proof fn lemma_with_own(coins: Coins, txid: Seq<char>, outputs: Seq<TxOutModel>, k: OutputKey)
    requires
        outputs.len() <= 0x1_0000_0000,
        k.0 == txid,
    ensures
        k.1 < outputs.len() ==> with_outputs(coins, txid, outputs).contains_key(k) && with_outputs(
            coins,
            txid,
            outputs,
        )[k] == outputs[k.1 as int],
        k.1 >= outputs.len() ==> (with_outputs(coins, txid, outputs).contains_key(k)
            <==> coins.contains_key(k)),
        k.1 >= outputs.len() && coins.contains_key(k) ==> with_outputs(coins, txid, outputs)[k]
            == coins[k],
    decreases outputs.len(),
{
    if outputs.len() > 0 {
        let last = outputs.len() - 1;
        lemma_with_own(coins, txid, outputs.drop_last(), k);
        assert(output_index(last) == last as u32);
    }
}

proof fn lemma_without_own(coins: Coins, inputs: Seq<TxInModel>, k: OutputKey)
    ensures
        without_inputs(coins, inputs).contains_key(k) <==> coins.contains_key(k) && !spends(
            inputs,
            k,
        ),
        without_inputs(coins, inputs).contains_key(k) ==> without_inputs(coins, inputs)[k]
            == coins[k],
    decreases inputs.len(),
{
    if inputs.len() > 0 {
        let front = inputs.drop_last();
        lemma_without_own(coins, front, k);
        if spends(front, k) {
            let i = choose|i: int| 0 <= i < front.len() && input_key(#[trigger] front[i]) == k;
            assert(input_key(inputs[i]) == k);
        }
        if input_key(inputs.last()) == k {
            assert(input_key(inputs[inputs.len() - 1]) == k);
        }
        if spends(inputs, k) && input_key(inputs.last()) != k {
            let i = choose|i: int| 0 <= i < inputs.len() && input_key(#[trigger] inputs[i]) == k;
            assert(input_key(front[i]) == k);
        }
    }
}

/// What becomes of every output over a spend: the transaction's own are there
/// under its identifier and their index, those that an input names are gone,
/// and all others are as they were.
pub proof fn law_spend_effect(coins: Coins, t: TxModel, k: OutputKey)
    requires
        t.outputs.len() <= 0x1_0000_0000,
    ensures
        ({
            let next = after_spend(coins, t);
            let made = k.0 == hex_of(sha256d_of(tx_preimage(t))) && k.1 < t.outputs.len();
            let spent = exists|i: int|
                0 <= i < t.inputs.len() && hex_of((#[trigger] t.inputs[i]).prev_txid) == k.0
                    && t.inputs[i].vout == k.1;
            &&& made ==> next.contains_key(k) && next[k] == t.outputs[k.1 as int]
            &&& !made ==> (next.contains_key(k) <==> coins.contains_key(k) && !spent)
            &&& !made && next.contains_key(k) ==> next[k] == coins[k]
        }),
{
    let id = hex_of(sha256d_of(tx_preimage(t)));
    let mid = without_inputs(coins, t.inputs);
    lemma_without_own(coins, t.inputs, k);
    if spends(t.inputs, k) {
        let i = choose|i: int| 0 <= i < t.inputs.len() && input_key(#[trigger] t.inputs[i]) == k;
        assert(hex_of(t.inputs[i].prev_txid) == k.0);
    }
    if exists|i: int|
        0 <= i < t.inputs.len() && hex_of((#[trigger] t.inputs[i]).prev_txid) == k.0
            && t.inputs[i].vout == k.1 {
        let i = choose|i: int|
            0 <= i < t.inputs.len() && hex_of((#[trigger] t.inputs[i]).prev_txid) == k.0
                && t.inputs[i].vout == k.1;
        assert(input_key(t.inputs[i]) == k);
    }
    if k.0 == id {
        lemma_with_own(mid, id, t.outputs, k);
    } else {
        law_spend_touches_only_its_outputs(coins, t, k);
    }
}

// ---------------------------------------------------------------------------
// spends in turn
// ---------------------------------------------------------------------------

/// Whether `states` are the outputs before, between and after spends that are
/// accepted in turn.
pub open spec fn spent_in_turn(
    states: Seq<Coins>,
    txs: Seq<TxModel>,
    verified: Set<ClaimModel>,
) -> bool {
    &&& states.len() == txs.len() + 1
    &&& forall|i: int|
        0 <= i < txs.len() ==> spend_verdict(states[i], #[trigger] txs[i], verified) is Ok
            && states[i + 1] == after_spend(states[i], txs[i])
}

/// Spends that are accepted one after the other leave what the last one leaves;
/// the first that is refused decides otherwise.
pub proof fn law_spends_in_turn(
    states: Seq<Coins>,
    txs: Seq<TxModel>,
    more: Seq<TxModel>,
    verified: Set<ClaimModel>,
)
    requires
        spent_in_turn(states, txs, verified),
    ensures
        spends_outcome(states[0], txs, verified) == Ok::<Coins, NodeError>(states.last()),
        more.len() > 0 ==> (spend_verdict(states.last(), more[0], verified) matches Err(e)
            ==> spends_outcome(states[0], txs + more, verified) == Err::<Coins, NodeError>(e)),
    decreases txs.len(),
{
    if txs.len() == 0 {
        assert(txs + more =~= more);
    } else {
        let rest = txs.drop_first();
        let later = states.drop_first();
        assert(spend_verdict(states[0], txs[0], verified) is Ok);
        assert forall|i: int| 0 <= i < rest.len() implies spend_verdict(
            later[i],
            #[trigger] rest[i],
            verified,
        ) is Ok && later[i + 1] == after_spend(later[i], rest[i]) by {
            assert(rest[i] == txs[i + 1]);
        }
        law_spends_in_turn(later, rest, more, verified);
        assert((txs + more).drop_first() =~= rest + more);
        assert((txs + more)[0] == txs[0]);
        assert(later.last() == states.last());
    }
}

proof fn lemma_spends_have_states(
    coins: Coins,
    txs: Seq<TxModel>,
    verified: Set<ClaimModel>,
) -> (states: Seq<Coins>)
    requires
        spends_outcome(coins, txs, verified) is Ok,
    ensures
        spent_in_turn(states, txs, verified),
        states[0] == coins,
        spends_outcome(coins, txs, verified)->Ok_0 == states.last(),
    decreases txs.len(),
{
    if txs.len() == 0 {
        seq![coins]
    } else {
        let rest = txs.drop_first();
        let later = lemma_spends_have_states(after_spend(coins, txs[0]), rest, verified);
        let states = seq![coins] + later;
        assert forall|i: int| 0 <= i < txs.len() implies spend_verdict(
            states[i],
            #[trigger] txs[i],
            verified,
        ) is Ok && states[i + 1] == after_spend(states[i], txs[i]) by {
            if i > 0 {
                assert(txs[i] == rest[i - 1]);
                assert(states[i] == later[i - 1]);
            }
        }
        states
    }
}

// ---------------------------------------------------------------------------
// one block
// ---------------------------------------------------------------------------

/// Whether a block follows the tip and carries the work.
pub open spec fn follows(s: StateModel, b: BlockModel) -> bool {
    &&& b.height == s.tip_height + 1
    &&& b.prev_hash == s.tip_hash
    &&& has_work(b, s.difficulty)
}

/// A block that follows the tip, whose coinbase mints at most the reward and
/// whose other transactions are accepted in turn is appended: the outputs are
/// what the last spend leaves with the coinbase's first output added, the tip
/// is the block, and the supply grows by what was minted.
pub proof fn law_good_block_is_appended(
    s: StateModel,
    b: BlockModel,
    reward: u64,
    verified: Set<ClaimModel>,
    states: Seq<Coins>,
)
    requires
        follows(s, b),
        b.transactions.len() > 0,
        b.transactions[0].outputs.len() > 0,
        b.transactions[0].outputs[0].value <= reward,
        s.total_supply + b.transactions[0].outputs[0].value <= u64::MAX,
        spent_in_turn(states, b.transactions.skip(1), verified),
        states[0] == s.utxos,
    ensures
        block_outcome(s, b, reward, verified) matches Ok(next) && {
            let minted = b.transactions[0].outputs[0];
            let id = hex_of(sha256d_of(tx_preimage(b.transactions[0])));
            &&& next.utxos == states.last().insert((id, 0u32), minted)
            &&& next.tip_height == b.height
            &&& next.tip_hash == hex_of(sha256_of(sha256_of(header_of(b))))
            &&& next.total_supply == s.total_supply + minted.value
            &&& next.difficulty == s.difficulty
        },
{
    let txs = b.transactions.drop_first();
    assert(b.transactions.skip(1) =~= txs);
    law_spends_in_turn(states, txs, Seq::empty(), verified);
}

/// A block without transactions moves the tip and nothing else.
pub proof fn law_empty_block_is_appended(
    s: StateModel,
    b: BlockModel,
    reward: u64,
    verified: Set<ClaimModel>,
)
    requires
        follows(s, b),
        b.transactions.len() == 0,
    ensures
        block_outcome(s, b, reward, verified) matches Ok(next) && {
            &&& next.utxos == s.utxos
            &&& next.tip_height == b.height
            &&& next.tip_hash == hex_of(sha256_of(sha256_of(header_of(b))))
            &&& next.total_supply == s.total_supply
            &&& next.difficulty == s.difficulty
        },
{
}

/// What is appended is a good block: it follows the tip, its coinbase mints at
/// most the reward, and its other transactions were accepted in turn.
pub proof fn law_appended_block_is_good(
    s: StateModel,
    b: BlockModel,
    reward: u64,
    verified: Set<ClaimModel>,
)
    requires
        block_outcome(s, b, reward, verified) is Ok,
    ensures
        follows(s, b),
        b.transactions.len() > 0 ==> {
            &&& b.transactions[0].outputs.len() > 0
            &&& b.transactions[0].outputs[0].value <= reward
            &&& s.total_supply + b.transactions[0].outputs[0].value <= u64::MAX
            &&& exists|states: Seq<Coins>| #[trigger]
                spent_in_turn(states, b.transactions.skip(1), verified) && states[0] == s.utxos
        },
{
    if b.transactions.len() > 0 {
        let txs = b.transactions.drop_first();
        assert(b.transactions.skip(1) =~= txs);
        let states = lemma_spends_have_states(s.utxos, txs, verified);
        assert(spent_in_turn(states, b.transactions.skip(1), verified));
    }
}

/// Why a block is refused, in this order: it does not follow the tip, it does
/// not carry the work, its coinbase pays nothing or more than the reward, a
/// spend is refused, the first that is, or the supply would not fit.
pub proof fn law_bad_block_is_refused(
    s: StateModel,
    b: BlockModel,
    reward: u64,
    verified: Set<ClaimModel>,
    states: Seq<Coins>,
    k: int,
)
    requires
        b.transactions.len() > 0 ==> 0 <= k < b.transactions.len() && spent_in_turn(
            states,
            b.transactions.subrange(1, k + 1),
            verified,
        ) && states[0] == s.utxos,
    ensures
        b.height != s.tip_height + 1 || b.prev_hash != s.tip_hash ==> block_outcome(
            s,
            b,
            reward,
            verified,
        ) == Err::<StateModel, NodeError>(NodeError::BadPrevHash),
        b.height == s.tip_height + 1 && b.prev_hash == s.tip_hash && !has_work(b, s.difficulty)
            ==> block_outcome(s, b, reward, verified) == Err::<StateModel, NodeError>(
            NodeError::BadPoW,
        ),
        follows(s, b) && b.transactions.len() > 0 && (b.transactions[0].outputs.len() == 0
            || b.transactions[0].outputs[0].value > reward) ==> block_outcome(s, b, reward, verified)
            == Err::<StateModel, NodeError>(NodeError::Overspend),
        follows(s, b) && b.transactions.len() > 0 && b.transactions[0].outputs.len() > 0
            && b.transactions[0].outputs[0].value <= reward ==> {
            &&& k + 1 < b.transactions.len() ==> (spend_verdict(
                states.last(),
                b.transactions[k + 1],
                verified,
            ) matches Err(e) ==> block_outcome(s, b, reward, verified) == Err::<
                StateModel,
                NodeError,
            >(e))
            &&& k + 1 == b.transactions.len() && s.total_supply
                + b.transactions[0].outputs[0].value > u64::MAX ==> block_outcome(
                s,
                b,
                reward,
                verified,
            ) == Err::<StateModel, NodeError>(NodeError::Overspend)
        },
{
    if b.transactions.len() > 0 {
        let done = b.transactions.subrange(1, k + 1);
        let more = b.transactions.skip(k + 1);
        assert(done + more =~= b.transactions.drop_first());
        law_spends_in_turn(states, done, more, verified);
        if k + 1 == b.transactions.len() {
            assert(done =~= b.transactions.drop_first());
        }
    }
}

// ---------------------------------------------------------------------------
// blocks in turn
// ---------------------------------------------------------------------------

/// Whether `states` are the chain states before, between and after blocks that
/// are appended in turn.
pub open spec fn appended_in_turn(
    states: Seq<StateModel>,
    blocks: Seq<BlockModel>,
    reward: u64,
    verified: Set<ClaimModel>,
) -> bool {
    &&& states.len() == blocks.len() + 1
    &&& forall|i: int|
        0 <= i < blocks.len() ==> block_outcome(states[i], #[trigger] blocks[i], reward, verified)
            == Ok::<StateModel, NodeError>(states[i + 1])
}

/// Replaying blocks is appending them one after the other, all of them; the
/// first that is refused decides otherwise.
pub proof fn law_replay_is_appending_in_turn(
    states: Seq<StateModel>,
    blocks: Seq<BlockModel>,
    more: Seq<BlockModel>,
    reward: u64,
    verified: Set<ClaimModel>,
)
    requires
        appended_in_turn(states, blocks, reward, verified),
    ensures
        replay(states[0], blocks, reward, verified) == Ok::<StateModel, NodeError>(states.last()),
        more.len() > 0 ==> (block_outcome(states.last(), more[0], reward, verified) matches Err(e)
            ==> replay(states[0], blocks + more, reward, verified) == Err::<StateModel, NodeError>(
            e,
        )),
    decreases blocks.len(),
{
    if blocks.len() == 0 {
        assert(blocks + more =~= more);
    } else {
        let rest = blocks.drop_first();
        let later = states.drop_first();
        assert(block_outcome(states[0], blocks[0], reward, verified) == Ok::<StateModel, NodeError>(
            states[1],
        ));
        assert forall|i: int| 0 <= i < rest.len() implies block_outcome(
            later[i],
            #[trigger] rest[i],
            reward,
            verified,
        ) == Ok::<StateModel, NodeError>(later[i + 1]) by {
            assert(rest[i] == blocks[i + 1]);
        }
        law_replay_is_appending_in_turn(later, rest, more, reward, verified);
        assert((blocks + more).drop_first() =~= rest + more);
        assert((blocks + more)[0] == blocks[0]);
        assert(later.last() == states.last());
    }
}

/// Before the first block there is nothing: no output, no tip, no supply.
pub proof fn law_chain_starts_empty(difficulty: u32, k: OutputKey)
    ensures
        !empty_state(difficulty).utxos.contains_key(k),
        empty_state(difficulty).tip_height == 0,
        empty_state(difficulty).tip_hash.len() == 0,
        empty_state(difficulty).total_supply == 0,
        empty_state(difficulty).difficulty == difficulty,
{
}

/// The outputs under a key are exactly the unspent ones that it locks.
pub proof fn law_outputs_under_key(coins: Coins, pubkey: Seq<u8>, k: OutputKey)
    ensures
        coins_under(coins, pubkey).contains_key(k) <==> coins.contains_key(k) && coins[k].pubkey
            == pubkey,
        coins_under(coins, pubkey).contains_key(k) ==> coins_under(coins, pubkey)[k] == coins[k],
{
}

/// Amounts add up: nothing is worth nothing, and one output more is worth its
/// amount more.
pub proof fn law_totals_add_up(coins: Coins, k: OutputKey, out: TxOutModel)
    requires
        coins.dom().finite(),
        !coins.contains_key(k),
    ensures
        coin_total(Map::empty()) == 0,
        coin_total(coins.insert(k, out)) == coin_total(coins) + out.value,
{
    lemma_total_insert(coins, k, out);
    assert(coins.remove(k) =~= coins);
}

} // verus!
