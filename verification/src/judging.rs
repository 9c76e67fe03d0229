//! Which signatures a judgement asks about, and of which transactions.
use vstd::prelude::*;

use crate::block::{block_hash, BlockModel};
use crate::chain::{output_index, Coins};
use crate::claims::{claims_coin, made_by, made_by_any, named, wanted, NamedCoin};
use crate::codec::{blocks, payload, tx};
use crate::hashing::{hex_of, sha256d_of};
use crate::node::NodeModel;
use crate::settle::{message_txs, stacked, straight};
use crate::sig::ClaimModel;
use crate::tx::{tx_preimage, txid_of, TxModel};
use crate::wire::{counted, MSG_BLOCKS, MSG_MEMPOOL, MSG_TX};

verus! {

/// The claim that an input makes on an output is asked about: that the output's
/// key signed the transaction's digest with the input's signature. This holds
/// of an unspent output and of one that a transaction at hand makes.
pub proof fn law_claim_on_output_is_listed(
    coins: Coins,
    txs: Set<TxModel>,
    t: TxModel,
    i: int,
    maker: TxModel,
    j: int,
)
    requires
        txs.contains(t),
        0 <= i < t.inputs.len(),
    ensures
        ({
            let k = (hex_of(t.inputs[i].prev_txid), t.inputs[i].vout);
            coins.contains_key(k) ==> wanted(named(coins), txs).contains(
                (ClaimModel {
                    pubkey: coins[k].pubkey,
                    message: sha256d_of(tx_preimage(t)),
                    signature: t.inputs[i].signature,
                }),
            )
        }),
        txs.contains(maker) && 0 <= j < maker.outputs.len() && j == t.inputs[i].vout && hex_of(
            t.inputs[i].prev_txid,
        ) == hex_of(sha256d_of(tx_preimage(maker))) ==> wanted(named(coins), txs).contains(
            (ClaimModel {
                pubkey: maker.outputs[j].pubkey,
                message: sha256d_of(tx_preimage(t)),
                signature: t.inputs[i].signature,
            }),
        ),
{
    let k = (hex_of(t.inputs[i].prev_txid), t.inputs[i].vout);
    if coins.contains_key(k) {
        let p = (k, coins[k]);
        let c = ClaimModel {
            pubkey: coins[k].pubkey,
            message: sha256d_of(tx_preimage(t)),
            signature: t.inputs[i].signature,
        };
        assert(named(coins).contains(p));
        assert(claims_coin(t, i, p, c));
    }
    if txs.contains(maker) && 0 <= j < maker.outputs.len() && j == t.inputs[i].vout && hex_of(
        t.inputs[i].prev_txid,
    ) == hex_of(sha256d_of(tx_preimage(maker))) {
        let p = ((txid_of(maker), output_index(j)), maker.outputs[j]);
        let c = ClaimModel {
            pubkey: maker.outputs[j].pubkey,
            message: sha256d_of(tx_preimage(t)),
            signature: t.inputs[i].signature,
        };
        assert(made_by(maker).contains(p)) by {
            assert(p == ((txid_of(maker), output_index(j)), maker.outputs[j]));
        }
        assert(made_by_any(txs).contains(p));
        assert(claims_coin(t, i, p, c));
    }
}

/// Nothing else is asked about: every listed claim is that of an input of a
/// transaction at hand, under the key of an output that the input names and
/// that is unspent or made by a transaction at hand.
pub proof fn law_listed_claim_is_of_an_input(
    coins: Coins,
    txs: Set<TxModel>,
    c: ClaimModel,
) -> (r: (TxModel, int, TxModel, int))
    requires
        wanted(named(coins), txs).contains(c),
    ensures
        ({
            let (t, i, maker, j) = r;
            let k = (hex_of(t.inputs[i].prev_txid), t.inputs[i].vout);
            &&& txs.contains(t)
            &&& 0 <= i < t.inputs.len()
            &&& c.message == sha256d_of(tx_preimage(t))
            &&& c.signature == t.inputs[i].signature
            &&& (coins.contains_key(k) && c.pubkey == coins[k].pubkey) || {
                &&& txs.contains(maker)
                &&& 0 <= j < maker.outputs.len()
                &&& k.0 == hex_of(sha256d_of(tx_preimage(maker)))
                &&& k.1 == output_index(j)
                &&& c.pubkey == maker.outputs[j].pubkey
            }
        }),
{
    let (t, i, p) = choose|t: TxModel, i: int, p: NamedCoin|
        txs.contains(t) && named(coins).union(made_by_any(txs)).contains(p)
            && #[trigger] claims_coin(t, i, p, c);
    if named(coins).contains(p) {
        (t, i, t, 0)
    } else {
        let maker = choose|m: TxModel| #[trigger] txs.contains(m) && made_by(m).contains(p);
        let j = choose|j: int|
            0 <= j < maker.outputs.len() && p == (
                (txid_of(maker), output_index(j)),
                #[trigger] maker.outputs[j],
            );
        (t, i, maker, j)
    }
}

/// Which transactions a message makes a node judge: those of the blocks or the
/// list that it carries, and with blocks that may change the branch the stored
/// ones too.
pub proof fn law_judged_transactions(n: NodeModel, body: Seq<u8>, kind: u8, t: TxModel)
    ensures
        payload(blocks(), body) matches Ok(list) ==> {
            message_txs(n, MSG_BLOCKS, body).contains(t) <==> ({
                ||| exists|i: int|
                    0 <= i < list.len() && (#[trigger] list[i]).transactions.contains(t)
                ||| !straight(n, list) && exists|i: int|
                    0 <= i < n.blocks.len() && (#[trigger] n.blocks[i]).transactions.contains(t)
            })
        },
        payload(counted(tx(), 4096), body) matches Ok(list) ==> {
            &&& message_txs(n, MSG_TX, body).contains(t) <==> list.contains(t)
            &&& message_txs(n, MSG_MEMPOOL, body).contains(t) <==> list.contains(t)
        },
        kind != MSG_BLOCKS && kind != MSG_TX && kind != MSG_MEMPOOL ==> !message_txs(
            n,
            kind,
            body,
        ).contains(t),
{
}

proof fn lemma_stacked(list: Seq<BlockModel>, height: u64, hash: Seq<char>)
    ensures
        stacked(list, height, hash) <==> forall|i: int|
            0 <= i < list.len() ==> (#[trigger] list[i]).height == height + 1 + i
                && list[i].prev_hash == (if i == 0 {
                hash
            } else {
                block_hash(list[i - 1])
            }),
    decreases list.len(),
{
    if list.len() > 0 {
        let rest = list.drop_first();
        lemma_stacked(rest, list[0].height, block_hash(list[0]));
        if stacked(list, height, hash) {
            assert forall|i: int| 0 <= i < list.len() implies (#[trigger] list[i]).height == height
                + 1 + i && list[i].prev_hash == (if i == 0 {
                hash
            } else {
                block_hash(list[i - 1])
            }) by {
                if i > 0 {
                    assert(rest[i - 1] == list[i]);
                    if i > 1 {
                        assert(rest[i - 2] == list[i - 1]);
                    }
                }
            }
        }
        if forall|i: int|
            0 <= i < list.len() ==> (#[trigger] list[i]).height == height + 1 + i
                && list[i].prev_hash == (if i == 0 {
                hash
            } else {
                block_hash(list[i - 1])
            }) {
            assert(list[0].height == height + 1);
            assert forall|i: int| 0 <= i < rest.len() implies (#[trigger] rest[i]).height
                == list[0].height + 1 + i && rest[i].prev_hash == (if i == 0 {
                block_hash(list[0])
            } else {
                block_hash(rest[i - 1])
            }) by {
                assert(rest[i] == list[i + 1]);
                if i > 0 {
                    assert(rest[i - 1] == list[i]);
                }
            }
        }
    }
}

/// Blocks can only extend the tip exactly if nothing is stored above it and
/// they stand on it one on the other: each one higher than the one before, and
/// naming its hash.
pub proof fn law_straight_blocks(n: NodeModel, list: Seq<BlockModel>)
    ensures
        straight(n, list) <==> {
            &&& forall|i: int|
                0 <= i < n.blocks.len() ==> (#[trigger] n.blocks[i]).height <= n.chain.tip_height
            &&& forall|i: int|
                0 <= i < list.len() ==> (#[trigger] list[i]).height == n.chain.tip_height + 1 + i
                    && list[i].prev_hash == (if i == 0 {
                    n.chain.tip_hash
                } else {
                    block_hash(list[i - 1])
                })
        },
{
    lemma_stacked(list, n.chain.tip_height, n.chain.tip_hash);
}

} // verus!
