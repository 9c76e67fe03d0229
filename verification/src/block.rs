//! Blocks: the header, its digest, the proof of work, and mining.
use vstd::prelude::*;
use vstd::utf8::encode_utf8;

use crate::bytes::{
    le_bytes, lemma_le_bytes_len, lemma_le_round_trip, lemma_pow256, push_slice, push_u64,
};
use crate::hashing::{hex_of, hex_text, sha256, sha256_of};
use crate::text::copy_text;
use crate::tx::{
    inputs_preimage, outputs_preimage, tx_preimage, tx_sighash, txins, txouts, txs_of, Transaction,
    TxIn, TxInModel, TxModel, TxOut, TxOutModel,
};

verus! {

/// A block in the chain.
#[derive(Debug)]
pub struct Block {
    /// Height; the first block has height 1.
    pub height: u64,
    /// Hash of the previous block in hexadecimal, "" for the first block.
    pub prev_hash: String,
    /// UNIX timestamp of block creation.
    pub timestamp: u64,
    /// Transactions included in this block (coinbase first).
    pub transactions: Vec<Transaction>,
    /// Proof-of-work nonce.
    pub nonce: u64,
}

/// The contents of a [`Block`].
pub struct BlockModel {
    pub height: u64,
    pub prev_hash: Seq<char>,
    pub timestamp: u64,
    pub transactions: Seq<TxModel>,
    pub nonce: u64,
}

impl View for Block {
    type V = BlockModel;

    open spec fn view(&self) -> BlockModel {
        BlockModel {
            height: self.height,
            prev_hash: self.prev_hash@,
            timestamp: self.timestamp,
            transactions: txs_of(self.transactions@),
            nonce: self.nonce,
        }
    }
}

/// The contents of a list of blocks.
pub open spec fn blocks_of(s: Seq<Block>) -> Seq<BlockModel> {
    Seq::new(s.len(), |i: int| s[i]@)
}

/// The transactions of a block behind the first.
pub open spec fn behind_coinbase(txs: Seq<TxModel>) -> Seq<TxModel> {
    if txs.len() == 0 {
        txs
    } else {
        txs.drop_first()
    }
}

/// A copy of a list of transactions.
pub fn copy_txs(v: &Vec<Transaction>) -> (r: Vec<Transaction>)
    ensures
        txs_of(r@) == txs_of(v@),
{
    let mut out: Vec<Transaction> = Vec::new();
    let mut i: usize = 0;
    while i < v.len()
        invariant
            i <= v@.len(),
            txs_of(out@) == txs_of(v@).take(i as int),
        decreases v@.len() - i,
    {
        let ghost was = out@;
        out.push(v[i].clone());
        i = i + 1;
        assert(txs_of(out@) =~= txs_of(was).push(v@[i - 1]@));
        assert(txs_of(out@) =~= txs_of(v@).take(i as int));
    }
    assert(txs_of(out@) =~= txs_of(v@));
    out
}

impl Clone for Block {
    fn clone(&self) -> (r: Self)
        ensures
            r@ == self@,
    {
        Block {
            height: self.height,
            prev_hash: copy_text(&self.prev_hash),
            timestamp: self.timestamp,
            transactions: copy_txs(&self.transactions),
            nonce: self.nonce,
        }
    }
}

// ---------------------------------------------------------------------------
// header and hash
// ---------------------------------------------------------------------------

/// The sighashes of a list of transactions, one behind the other.
pub open spec fn sighashes(s: Seq<TxModel>) -> Seq<u8>
    decreases s.len(),
{
    if s.len() == 0 {
        Seq::empty()
    } else {
        sighashes(s.drop_last()) + tx_sighash(s.last())
    }
}

/// The header: height, previous hash, timestamp, nonce, and the sighash of
/// every transaction.
pub open spec fn header_of(b: BlockModel) -> Seq<u8> {
    le_bytes(b.height as nat, 8) + encode_utf8(b.prev_hash) + le_bytes(b.timestamp as nat, 8)
        + le_bytes(b.nonce as nat, 8) + sighashes(b.transactions)
}

/// SHA-256d of the header.
pub open spec fn block_digest(b: BlockModel) -> Seq<u8> {
    sha256_of(sha256_of(header_of(b)))
}

/// The hash that names a block: its digest in hexadecimal.
pub open spec fn block_hash(b: BlockModel) -> Seq<char> {
    hex_of(block_digest(b))
}

// ---------------------------------------------------------------------------
// proof of work
// ---------------------------------------------------------------------------

/// The number of zero bits above the highest one bit of a byte.
pub open spec fn byte_zeros(b: u8) -> nat {
    if b >= 128 {
        0
    } else if b >= 64 {
        1
    } else if b >= 32 {
        2
    } else if b >= 16 {
        3
    } else if b >= 8 {
        4
    } else if b >= 4 {
        5
    } else if b >= 2 {
        6
    } else if b >= 1 {
        7
    } else {
        8
    }
}

/// The number of zero bits before the first one bit of a byte string.
pub open spec fn zero_bits(d: Seq<u8>) -> nat
    decreases d.len(),
{
    if d.len() == 0 {
        0
    } else if d[0] == 0 {
        8 + zero_bits(d.drop_first())
    } else {
        byte_zeros(d[0])
    }
}

/// The value of bit `k` of a byte, bit 0 being the most significant.
pub open spec fn byte_bit(b: u8, k: int) -> bool {
    let high = if k == 0 {
        128int
    } else if k == 1 {
        64
    } else if k == 2 {
        32
    } else if k == 3 {
        16
    } else if k == 4 {
        8
    } else if k == 5 {
        4
    } else if k == 6 {
        2
    } else {
        1
    };
    (b as int / high) % 2 == 1
}

/// The value of bit `i` of a byte string, the first byte's most significant
/// bit being bit 0.
pub open spec fn bit_at(d: Seq<u8>, i: int) -> bool {
    byte_bit(d[i / 8], i % 8)
}

/// `zero_bits` counts what it says: every bit before it is zero, and the bit
/// there, if there is one, is one.
pub proof fn lemma_zero_bits(d: Seq<u8>)
    ensures
        zero_bits(d) <= 8 * d.len(),
        forall|i: int| 0 <= i < zero_bits(d) ==> !#[trigger] bit_at(d, i),
        zero_bits(d) < 8 * d.len() ==> bit_at(d, zero_bits(d) as int),
    decreases d.len(),
{
    if d.len() > 0 {
        let rest = d.drop_first();
        if d[0] == 0 {
            lemma_zero_bits(rest);
            assert forall|i: int| 0 <= i < zero_bits(d) implies !#[trigger] bit_at(d, i) by {
                if i >= 8 {
                    assert(!bit_at(rest, i - 8));
                    assert((i - 8) / 8 == i / 8 - 1 && (i - 8) % 8 == i % 8);
                    assert(rest[i / 8 - 1] == d[i / 8]);
                } else {
                    assert(d[i / 8] == 0);
                }
            }
            let z = zero_bits(rest) as int;
            if z < 8 * rest.len() {
                assert((z + 8) / 8 == z / 8 + 1 && (z + 8) % 8 == z % 8);
                assert(rest[z / 8] == d[z / 8 + 1]);
            }
        } else {
            let b = d[0];
            assert forall|i: int| 0 <= i < zero_bits(d) implies !#[trigger] bit_at(d, i) by {
                assert(i / 8 == 0 && i % 8 == i);
            }
        }
    }
}

/// Whether a block carries the work that `difficulty` asks for: its digest
/// starts with that many zero bits.
pub open spec fn has_work(b: BlockModel, difficulty: u32) -> bool {
    zero_bits(block_digest(b)) >= difficulty
}

fn byte_leading_zeros(b: u8) -> (r: usize)
    ensures
        r == byte_zeros(b),
{
    if b >= 128 {
        0
    } else if b >= 64 {
        1
    } else if b >= 32 {
        2
    } else if b >= 16 {
        3
    } else if b >= 8 {
        4
    } else if b >= 4 {
        5
    } else if b >= 2 {
        6
    } else if b >= 1 {
        7
    } else {
        8
    }
}

/// Count leading zero bits of a digest (the measure of work).
pub fn leading_zero_bits(d: &[u8]) -> (r: usize)
    requires
        8 * d@.len() <= usize::MAX,
    ensures
        r == zero_bits(d@),
        r <= 8 * d@.len(),
        forall|i: int| 0 <= i < r ==> !#[trigger] bit_at(d@, i),
        r < 8 * d@.len() ==> bit_at(d@, r as int),
{
    let mut z: usize = 0;
    let mut i: usize = 0;
    assert(d@.skip(0) =~= d@);
    while i < d.len()
        invariant
            i <= d@.len(),
            8 * d@.len() <= usize::MAX,
            z == 8 * i,
            zero_bits(d@) == z + zero_bits(d@.skip(i as int)),
        decreases d@.len() - i,
    {
        assert(d@.skip(i as int).drop_first() =~= d@.skip(i + 1));
        if d[i] != 0 {
            proof {
                lemma_zero_bits(d@);
            }
            return z + byte_leading_zeros(d[i]);
        }
        z = z + 8;
        i = i + 1;
    }
    proof {
        lemma_zero_bits(d@);
    }
    z
}

impl Block {
    /// Canonical block header serialization for hashing/mining.
    pub fn header_preimage(&self) -> (r: Vec<u8>)
        ensures
            r@ == header_of(self@),
    {
        let mut buf: Vec<u8> = Vec::new();
        push_u64(&mut buf, self.height);
        push_slice(&mut buf, self.prev_hash.as_str().as_bytes());
        push_u64(&mut buf, self.timestamp);
        push_u64(&mut buf, self.nonce);
        let ghost head = buf@;
        assert(head =~= le_bytes(self.height as nat, 8) + encode_utf8(self.prev_hash@) + le_bytes(
            self.timestamp as nat,
            8,
        ) + le_bytes(self.nonce as nat, 8));
        let ghost all = txs_of(self.transactions@);
        let mut i: usize = 0;
        assert(all.take(0) =~= Seq::empty());
        assert(buf@ =~= head + sighashes(all.take(0)));
        while i < self.transactions.len()
            invariant
                i <= self.transactions@.len(),
                all == txs_of(self.transactions@),
                buf@ == head + sighashes(all.take(i as int)),
            decreases self.transactions@.len() - i,
        {
            let h: [u8; 32] = self.transactions[i].sighash();
            push_slice(&mut buf, h.as_slice());
            i = i + 1;
            proof {
                let t = all.take(i as int);
                assert(t.drop_last() =~= all.take(i - 1));
                assert(buf@ =~= head + sighashes(t));
            }
        }
        assert(all.take(i as int) =~= all);
        buf
    }

    fn digest(&self) -> (r: [u8; 32])
        ensures
            r@ == block_digest(self@),
    {
        let first: [u8; 32] = sha256(&self.header_preimage());
        sha256(first.as_slice())
    }

    /// Block hash: SHA-256d of the header (hex).
    pub fn hash(&self) -> (r: String)
        ensures
            r@ == block_hash(self@),
    {
        hex_text(self.digest().as_slice())
    }

    /// Does this block satisfy `difficulty` leading zero bits?
    pub fn meets_target(&self, difficulty: u32) -> (r: bool)
        ensures
            r == has_work(self@, difficulty),
    {
        let d: [u8; 32] = self.digest();
        leading_zero_bits(d.as_slice()) >= difficulty as usize
    }
}

/// The block with another nonce.
pub open spec fn with_nonce(b: BlockModel, nonce: u64) -> BlockModel {
    BlockModel { nonce, ..b }
}

/// Simple miner: the first nonce below `max_nonce` that meets the target.
pub fn mine_block(block: Block, difficulty: u32, max_nonce: u64) -> (r: Option<Block>)
    ensures
        match r {
            Some(m) => {
                &&& m@ == with_nonce(block@, m.nonce)
                &&& m.nonce < max_nonce
                &&& has_work(m@, difficulty)
                &&& forall|n: u64|
                    n < m.nonce ==> !has_work(#[trigger] with_nonce(block@, n), difficulty)
            },
            None => forall|n: u64|
                n < max_nonce ==> !has_work(#[trigger] with_nonce(block@, n), difficulty),
        },
{
    let ghost given = block@;
    let mut candidate: Block = block;
    let mut nonce: u64 = 0;
    while nonce < max_nonce
        invariant
            nonce <= max_nonce,
            given == block@,
            with_nonce(candidate@, 0) == with_nonce(given, 0),
            forall|n: u64| n < nonce ==> !has_work(#[trigger] with_nonce(given, n), difficulty),
        decreases max_nonce - nonce,
    {
        candidate.nonce = nonce;
        assert(candidate@ == with_nonce(given, nonce));
        if candidate.meets_target(difficulty) {
            return Some(candidate);
        }
        nonce = nonce + 1;
    }
    None
}

// ---------------------------------------------------------------------------
// coinbase
// ---------------------------------------------------------------------------

/// The 32 bytes that stand for the spent output of a coinbase: the height in
/// eight bytes, least significant first, then zeros.
pub open spec fn height_commitment(height: u64) -> Seq<u8> {
    le_bytes(height as nat, 8) + Seq::new(24, |i: int| 0u8)
}

/// The coinbase of a block: one input that commits to the height, one output
/// that pays the reward.
pub open spec fn coinbase_of(pubkey: Seq<u8>, reward: u64, height: u64) -> TxModel {
    TxModel {
        version: 1,
        inputs: seq![
            TxInModel {
                prev_txid: height_commitment(height),
                vout: u32::MAX,
                signature: Seq::empty(),
            },
        ],
        outputs: seq![TxOutModel { value: reward, pubkey }],
        locktime: 0,
    }
}

/// Coinbase transaction: mints `reward` sats to `pubkey`.
///
/// The block height is committed inside `prev_txid[0..8]` (LE): the sighash
/// preimage commits prevouts but not signatures, so the height MUST live in a
/// committed field or every coinbase would collide on the same txid.
pub fn coinbase(pubkey: Vec<u8>, reward: u64, height: u64) -> (r: Transaction)
    ensures
        r@ == coinbase_of(pubkey@, reward, height),
{
    let mut bytes: Vec<u8> = Vec::new();
    push_u64(&mut bytes, height);
    proof {
        lemma_le_bytes_len(height as nat, 8);
    }
    let mut k: usize = 8;
    while k < 32
        invariant
            8 <= k <= 32,
            bytes@.len() == k,
            bytes@ == height_commitment(height).take(k as int),
            height_commitment(height).len() == 32,
            forall|j: int| 8 <= j < 32 ==> height_commitment(height)[j] == 0u8,
        decreases 32 - k,
    {
        bytes.push(0u8);
        k = k + 1;
        assert(bytes@ =~= height_commitment(height).take(k as int));
    }
    assert(bytes@ =~= height_commitment(height));
    let prev: [u8; 32] = crate::bytes::to_array_32(&bytes);
    let mut inputs: Vec<TxIn> = Vec::new();
    inputs.push(TxIn { prev_txid: prev, vout: u32::MAX, signature: Vec::new() });
    let mut outputs: Vec<TxOut> = Vec::new();
    outputs.push(TxOut { value: reward, pubkey });
    let ghost want = coinbase_of(pubkey@, reward, height);
    assert(inputs@[0].signature@ =~= Seq::<u8>::empty());
    assert(txins(inputs@) =~= want.inputs);
    assert(txouts(outputs@) =~= want.outputs);
    Transaction { version: 1, inputs, outputs, locktime: 0 }
}

/// Coinbases of different heights have different sighash preimages, whatever
/// they pay and to whom.
pub proof fn law_coinbase_commits_to_height(
    pk1: Seq<u8>,
    reward1: u64,
    h1: u64,
    pk2: Seq<u8>,
    reward2: u64,
    h2: u64,
)
    requires
        h1 != h2,
    ensures
        tx_preimage(coinbase_of(pk1, reward1, h1)) != tx_preimage(coinbase_of(pk2, reward2, h2)),
{
    let a = tx_preimage(coinbase_of(pk1, reward1, h1));
    let b = tx_preimage(coinbase_of(pk2, reward2, h2));
    lemma_coinbase_preimage_height(pk1, reward1, h1);
    lemma_coinbase_preimage_height(pk2, reward2, h2);
    lemma_pow256();
    lemma_le_round_trip(h1 as nat, 8);
    lemma_le_round_trip(h2 as nat, 8);
    if a == b {
        assert(a.subrange(4, 12) == b.subrange(4, 12));
    }
}

proof fn lemma_coinbase_preimage_height(pk: Seq<u8>, reward: u64, h: u64)
    ensures
        tx_preimage(coinbase_of(pk, reward, h)).len() >= 12,
        tx_preimage(coinbase_of(pk, reward, h)).subrange(4, 12) == le_bytes(h as nat, 8),
{
    let t = coinbase_of(pk, reward, h);
    lemma_le_bytes_len(1, 4);
    lemma_le_bytes_len(h as nat, 8);
    reveal_with_fuel(inputs_preimage, 2);
    assert(t.inputs.drop_last() =~= Seq::empty());
    assert(inputs_preimage(t.inputs) =~= height_commitment(h) + le_bytes(u32::MAX as nat, 4));
    let rest = outputs_preimage(t.outputs) + le_bytes(t.locktime as nat, 4);
    assert(tx_preimage(t) =~= le_bytes(1, 4) + height_commitment(h) + (le_bytes(
        u32::MAX as nat,
        4,
    ) + rest));
    assert(tx_preimage(t).subrange(4, 12) =~= le_bytes(h as nat, 8));
}

} // verus!
