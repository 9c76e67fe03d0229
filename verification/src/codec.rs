//! Payload codecs: transactions, blocks, addresses, handshakes, frames and
//! messages. The wire format is the one that is written down here.
use vstd::prelude::*;
use vstd::utf8::encode_utf8;

use crate::block::{blocks_of, Block, BlockModel};
use crate::bytes::{
    copy_bytes, le_bytes, le_value, lemma_le_bytes_mod, lemma_pow256, len_u32, push_bytes,
    push_slice, push_u32, push_u64, sized_bytes,
};
use crate::text::copy_text;
use crate::tx::{txins, txouts, txs_of, Transaction, TxIn, TxInModel, TxModel, TxOut, TxOutModel};
use crate::wire::{
    both, counted, joined, listed, made, prepended, raw, sized, times, utf8, word32, word64,
    MAX_ADDR_MSG, MAX_MSG, IoError, IoKind, NetError, Parsed, Parser, Reader, WireFault,
};

verus! {

// ---------------------------------------------------------------------------
// transactions
// ---------------------------------------------------------------------------

/// An input on the wire: the spent output, then the signature.
pub open spec fn txin_bytes() -> spec_fn(TxInModel) -> Seq<u8> {
    |i: TxInModel| i.prev_txid + (le_bytes(i.vout as nat, 4) + sized_bytes(i.signature))
}

/// An output on the wire: the amount, then the key.
pub open spec fn txout_bytes() -> spec_fn(TxOutModel) -> Seq<u8> {
    |o: TxOutModel| le_bytes(o.value as nat, 8) + sized_bytes(o.pubkey)
}

/// A transaction on the wire: version, locktime, inputs, outputs.
pub open spec fn tx_bytes() -> spec_fn(TxModel) -> Seq<u8> {
    |t: TxModel|
        (le_bytes(t.version as nat, 4) + le_bytes(t.locktime as nat, 4)) + (listed(
            txin_bytes(),
            t.inputs,
        ) + listed(txout_bytes(), t.outputs))
}

/// Reads an input.
#[verifier::opaque]
pub open spec fn txin() -> Parser<TxInModel> {
    made(
        both(raw(32), both(word32(), sized())),
        |x: (Seq<u8>, (u32, Seq<u8>))|
            TxInModel { prev_txid: x.0, vout: x.1.0, signature: x.1.1 },
    )
}

/// Reads an output.
#[verifier::opaque]
pub open spec fn txout() -> Parser<TxOutModel> {
    made(both(word64(), sized()), |x: (u64, Seq<u8>)| TxOutModel { value: x.0, pubkey: x.1 })
}

/// Reads a transaction.
#[verifier::opaque]
pub open spec fn tx() -> Parser<TxModel> {
    made(
        both(
            both(word32(), word32()),
            both(counted(txin(), MAX_MSG as nat), counted(txout(), MAX_MSG as nat)),
        ),
        |x: ((u32, u32), (Seq<TxInModel>, Seq<TxOutModel>))|
            TxModel { version: x.0.0, inputs: x.1.0, outputs: x.1.1, locktime: x.0.1 },
    )
}

fn push_txin(o: &mut Vec<u8>, i: &TxIn)
    ensures
        final(o)@ == old(o)@ + txin_bytes()(i@),
{
    push_slice(o, i.prev_txid.as_slice());
    push_u32(o, i.vout);
    push_bytes(o, &i.signature);
    assert(o@ =~= old(o)@ + txin_bytes()(i@));
}

fn push_txout(o: &mut Vec<u8>, out: &TxOut)
    ensures
        final(o)@ == old(o)@ + txout_bytes()(out@),
{
    push_u64(o, out.value);
    push_bytes(o, &out.pubkey);
    assert(o@ =~= old(o)@ + txout_bytes()(out@));
}

/// Appends the number of values, as far as four bytes hold it.
fn push_len(o: &mut Vec<u8>, n: usize)
    ensures
        final(o)@ == old(o)@ + le_bytes(n as nat, 4),
{
    push_u32(o, len_u32(n));
    proof {
        lemma_pow256();
        lemma_le_bytes_mod(n as nat, 4);
    }
}

fn push_tx(o: &mut Vec<u8>, t: &Transaction)
    ensures
        final(o)@ == old(o)@ + tx_bytes()(t@),
{
    let ghost start = o@;
    push_u32(o, t.version);
    push_u32(o, t.locktime);
    push_len(o, t.inputs.len());
    let ghost head = o@;
    let ghost ins = txins(t.inputs@);
    let mut i: usize = 0;
    assert(ins.skip(0) =~= ins);
    while i < t.inputs.len()
        invariant
            i <= t.inputs@.len(),
            ins == txins(t.inputs@),
            o@ + joined(txin_bytes(), ins.skip(i as int)) == head + joined(txin_bytes(), ins),
        decreases t.inputs@.len() - i,
    {
        let ghost was = o@;
        push_txin(o, &t.inputs[i]);
        proof {
            let rest = ins.skip(i as int);
            assert(rest[0] == ins[i as int]);
            assert(rest.drop_first() =~= ins.skip(i + 1));
            assert(was + joined(txin_bytes(), rest) =~= o@ + joined(
                txin_bytes(),
                ins.skip(i + 1),
            ));
        }
        i = i + 1;
    }
    assert(ins.skip(i as int) =~= Seq::empty());
    assert(o@ =~= head + joined(txin_bytes(), ins));
    push_len(o, t.outputs.len());
    let ghost mid = o@;
    let ghost outs = txouts(t.outputs@);
    let mut k: usize = 0;
    assert(outs.skip(0) =~= outs);
    while k < t.outputs.len()
        invariant
            k <= t.outputs@.len(),
            outs == txouts(t.outputs@),
            o@ + joined(txout_bytes(), outs.skip(k as int)) == mid + joined(txout_bytes(), outs),
        decreases t.outputs@.len() - k,
    {
        let ghost was = o@;
        push_txout(o, &t.outputs[k]);
        proof {
            let rest = outs.skip(k as int);
            assert(rest[0] == outs[k as int]);
            assert(rest.drop_first() =~= outs.skip(k + 1));
            assert(was + joined(txout_bytes(), rest) =~= o@ + joined(
                txout_bytes(),
                outs.skip(k + 1),
            ));
        }
        k = k + 1;
    }
    assert(outs.skip(k as int) =~= Seq::empty());
    assert(o@ =~= mid + joined(txout_bytes(), outs));
    assert(o@ =~= start + tx_bytes()(t@));
}

/// Encodes one transaction.
pub fn encode_tx(tx: &Transaction) -> (r: Vec<u8>)
    ensures
        r@ == tx_bytes()(tx@),
{
    let mut o: Vec<u8> = Vec::new();
    push_tx(&mut o, tx);
    assert(o@ =~= tx_bytes()(tx@));
    o
}

impl<'a> Reader<'a> {
    fn txin(&mut self) -> (r: Result<TxIn, WireFault>)
        ensures
            match txin()(old(self)@) {
                Ok((v, rest)) => (r matches Ok(i) && i@ == v) && final(self)@ == rest,
                Err(e) => r == Err::<TxIn, WireFault>(e),
            },
    {
        reveal(txin);
        let prev_txid: [u8; 32] = match self.array_32() {
            Ok(b) => b,
            Err(e) => {
                return Err(e);
            },
        };
        let vout: u32 = match self.u32() {
            Ok(v) => v,
            Err(e) => {
                return Err(e);
            },
        };
        match self.bytes() {
            Ok(signature) => Ok(TxIn { prev_txid, vout, signature }),
            Err(e) => Err(e),
        }
    }

    fn txout(&mut self) -> (r: Result<TxOut, WireFault>)
        ensures
            match txout()(old(self)@) {
                Ok((v, rest)) => (r matches Ok(i) && i@ == v) && final(self)@ == rest,
                Err(e) => r == Err::<TxOut, WireFault>(e),
            },
    {
        reveal(txout);
        let value: u64 = match self.u64() {
            Ok(v) => v,
            Err(e) => {
                return Err(e);
            },
        };
        match self.bytes() {
            Ok(pubkey) => Ok(TxOut { value, pubkey }),
            Err(e) => Err(e),
        }
    }

    fn txins(&mut self) -> (r: Result<Vec<TxIn>, WireFault>)
        ensures
            match counted(txin(), MAX_MSG as nat)(old(self)@) {
                Ok((v, rest)) => (r matches Ok(l) && txins(l@) == v) && final(self)@ == rest,
                Err(e) => r == Err::<Vec<TxIn>, WireFault>(e),
            },
    {
        let ghost start = self@;
        let n: usize = match self.count(MAX_MSG) {
            Ok(n) => n,
            Err(e) => {
                return Err(e);
            },
        };
        let ghost from = self@;
        let mut out: Vec<TxIn> = Vec::new();
        let mut k: usize = 0;
        assert(txins(out@) =~= Seq::empty());
        proof {
            lemma_prepend_nothing(times(txin(), from, n as nat));
        }
        while k < n
            invariant
                k <= n,
                start == old(self)@,
                counted(txin(), MAX_MSG as nat)(start) == times(txin(), from, n as nat),
                times(txin(), from, n as nat) == prepended(
                    txins(out@),
                    times(txin(), self@, (n - k) as nat),
                ),
            decreases n - k,
        {
            let ghost was = txins(out@);
            match self.txin() {
                Ok(i) => {
                    let ghost x = i@;
                    out.push(i);
                    proof {
                        assert(txins(out@) =~= was.push(x));
                        lemma_prepend_push(was, x, times(txin(), self@, (n - k - 1) as nat));
                    }
                },
                Err(e) => {
                    return Err(e);
                },
            }
            k = k + 1;
        }
        assert(txins(out@) + Seq::empty() =~= txins(out@));
        Ok(out)
    }

    fn txouts(&mut self) -> (r: Result<Vec<TxOut>, WireFault>)
        ensures
            match counted(txout(), MAX_MSG as nat)(old(self)@) {
                Ok((v, rest)) => (r matches Ok(l) && txouts(l@) == v) && final(self)@ == rest,
                Err(e) => r == Err::<Vec<TxOut>, WireFault>(e),
            },
    {
        let ghost start = self@;
        let n: usize = match self.count(MAX_MSG) {
            Ok(n) => n,
            Err(e) => {
                return Err(e);
            },
        };
        let ghost from = self@;
        let mut out: Vec<TxOut> = Vec::new();
        let mut k: usize = 0;
        assert(txouts(out@) =~= Seq::empty());
        proof {
            lemma_prepend_nothing(times(txout(), from, n as nat));
        }
        while k < n
            invariant
                k <= n,
                start == old(self)@,
                counted(txout(), MAX_MSG as nat)(start) == times(txout(), from, n as nat),
                times(txout(), from, n as nat) == prepended(
                    txouts(out@),
                    times(txout(), self@, (n - k) as nat),
                ),
            decreases n - k,
        {
            let ghost was = txouts(out@);
            match self.txout() {
                Ok(i) => {
                    let ghost x = i@;
                    out.push(i);
                    proof {
                        assert(txouts(out@) =~= was.push(x));
                        lemma_prepend_push(was, x, times(txout(), self@, (n - k - 1) as nat));
                    }
                },
                Err(e) => {
                    return Err(e);
                },
            }
            k = k + 1;
        }
        assert(txouts(out@) + Seq::empty() =~= txouts(out@));
        Ok(out)
    }

    /// Reads a transaction.
    pub fn tx(&mut self) -> (r: Result<Transaction, WireFault>)
        ensures
            match tx()(old(self)@) {
                Ok((v, rest)) => (r matches Ok(t) && t@ == v) && final(self)@ == rest,
                Err(e) => r == Err::<Transaction, WireFault>(e),
            },
    {
        reveal(tx);
        let version: u32 = match self.u32() {
            Ok(v) => v,
            Err(e) => {
                return Err(e);
            },
        };
        let locktime: u32 = match self.u32() {
            Ok(v) => v,
            Err(e) => {
                return Err(e);
            },
        };
        let inputs: Vec<TxIn> = match self.txins() {
            Ok(v) => v,
            Err(e) => {
                return Err(e);
            },
        };
        match self.txouts() {
            Ok(outputs) => Ok(Transaction { version, inputs, outputs, locktime }),
            Err(e) => Err(e),
        }
    }

    /// Reads transactions behind their number.
    pub fn txs(&mut self, max: usize) -> (r: Result<Vec<Transaction>, WireFault>)
        ensures
            match counted(tx(), max as nat)(old(self)@) {
                Ok((v, rest)) => (r matches Ok(l) && txs_of(l@) == v) && final(self)@ == rest,
                Err(e) => r == Err::<Vec<Transaction>, WireFault>(e),
            },
    {
        let ghost start = self@;
        let n: usize = match self.count(max) {
            Ok(n) => n,
            Err(e) => {
                return Err(e);
            },
        };
        let ghost from = self@;
        let mut out: Vec<Transaction> = Vec::new();
        let mut k: usize = 0;
        assert(txs_of(out@) =~= Seq::empty());
        proof {
            lemma_prepend_nothing(times(tx(), from, n as nat));
        }
        while k < n
            invariant
                k <= n,
                start == old(self)@,
                counted(tx(), max as nat)(start) == times(tx(), from, n as nat),
                times(tx(), from, n as nat) == prepended(
                    txs_of(out@),
                    times(tx(), self@, (n - k) as nat),
                ),
            decreases n - k,
        {
            let ghost was = txs_of(out@);
            match self.tx() {
                Ok(i) => {
                    let ghost x = i@;
                    out.push(i);
                    proof {
                        assert(txs_of(out@) =~= was.push(x));
                        lemma_prepend_push(was, x, times(tx(), self@, (n - k - 1) as nat));
                    }
                },
                Err(e) => {
                    return Err(e);
                },
            }
            k = k + 1;
        }
        assert(txs_of(out@) + Seq::empty() =~= txs_of(out@));
        Ok(out)
    }
}

proof fn lemma_prepend_nothing<T>(r: Parsed<Seq<T>>)
    ensures
        prepended(Seq::empty(), r) == r,
{
    if r is Ok {
        assert(Seq::empty() + r->Ok_0.0 =~= r->Ok_0.0);
    }
}

proof fn lemma_prepend_push<T>(front: Seq<T>, x: T, r: Parsed<Seq<T>>)
    ensures
        prepended(front, prepended(seq![x], r)) == prepended(front.push(x), r),
{
    if r is Ok {
        assert(front + (seq![x] + r->Ok_0.0) =~= front.push(x) + r->Ok_0.0);
    }
}

/// The value that a payload starts with; what follows it is ignored.
pub open spec fn payload<T>(p: Parser<T>, d: Seq<u8>) -> Result<T, WireFault> {
    match p(d) {
        Ok((v, _)) => Ok(v),
        Err(e) => Err(e),
    }
}

/// Decodes one transaction.
pub fn decode_tx(d: &[u8]) -> (r: Result<Transaction, NetError>)
    ensures
        match payload(tx(), d@) {
            Ok(v) => r matches Ok(t) && t@ == v,
            Err(e) => r == Err::<Transaction, NetError>(e.net()),
        },
{
    let mut rd: Reader<'_> = Reader::new(d);
    match rd.tx() {
        Ok(t) => Ok(t),
        Err(e) => Err(e.to_net()),
    }
}

/// The contents of a list of transactions held by reference.
pub open spec fn tx_refs(s: Seq<&Transaction>) -> Seq<TxModel> {
    Seq::new(s.len(), |i: int| s[i]@)
}

/// Appends transactions behind their number.
pub fn push_tx_refs(o: &mut Vec<u8>, txs: &[&Transaction])
    ensures
        final(o)@ == old(o)@ + listed(tx_bytes(), tx_refs(txs@)),
{
    let ghost start = o@;
    push_len(o, txs.len());
    let ghost head = o@;
    let ghost all = tx_refs(txs@);
    let mut i: usize = 0;
    assert(all.skip(0) =~= all);
    while i < txs.len()
        invariant
            i <= txs@.len(),
            all == tx_refs(txs@),
            o@ + joined(tx_bytes(), all.skip(i as int)) == head + joined(tx_bytes(), all),
        decreases txs@.len() - i,
    {
        let ghost was = o@;
        push_tx(o, txs[i]);
        proof {
            let rest = all.skip(i as int);
            assert(rest[0] == all[i as int]);
            assert(rest.drop_first() =~= all.skip(i + 1));
            assert(was + joined(tx_bytes(), rest) =~= o@ + joined(tx_bytes(), all.skip(i + 1)));
        }
        i = i + 1;
    }
    assert(all.skip(i as int) =~= Seq::empty());
    assert(o@ =~= start + listed(tx_bytes(), all));
}

fn push_txs(o: &mut Vec<u8>, txs: &Vec<Transaction>)
    ensures
        final(o)@ == old(o)@ + listed(tx_bytes(), txs_of(txs@)),
{
    let ghost start = o@;
    push_len(o, txs.len());
    let ghost head = o@;
    let ghost all = txs_of(txs@);
    let mut i: usize = 0;
    assert(all.skip(0) =~= all);
    while i < txs.len()
        invariant
            i <= txs@.len(),
            all == txs_of(txs@),
            o@ + joined(tx_bytes(), all.skip(i as int)) == head + joined(tx_bytes(), all),
        decreases txs@.len() - i,
    {
        let ghost was = o@;
        push_tx(o, &txs[i]);
        proof {
            let rest = all.skip(i as int);
            assert(rest[0] == all[i as int]);
            assert(rest.drop_first() =~= all.skip(i + 1));
            assert(was + joined(tx_bytes(), rest) =~= o@ + joined(tx_bytes(), all.skip(i + 1)));
        }
        i = i + 1;
    }
    assert(all.skip(i as int) =~= Seq::empty());
    assert(o@ =~= start + listed(tx_bytes(), all));
}

// ---------------------------------------------------------------------------
// blocks
// ---------------------------------------------------------------------------

/// A block on the wire: height, timestamp, nonce, previous hash, transactions.
pub open spec fn block_bytes() -> spec_fn(BlockModel) -> Seq<u8> {
    |b: BlockModel|
        (le_bytes(b.height as nat, 8) + (le_bytes(b.timestamp as nat, 8) + le_bytes(
            b.nonce as nat,
            8,
        ))) + (sized_bytes(encode_utf8(b.prev_hash)) + listed(tx_bytes(), b.transactions))
}

/// Reads a block.
#[verifier::opaque]
pub open spec fn block() -> Parser<BlockModel> {
    made(
        both(
            both(word64(), both(word64(), word64())),
            both(utf8(), counted(tx(), MAX_MSG as nat)),
        ),
        |x: ((u64, (u64, u64)), (Seq<char>, Seq<TxModel>))|
            BlockModel {
                height: x.0.0,
                prev_hash: x.1.0,
                timestamp: x.0.1.0,
                transactions: x.1.1,
                nonce: x.0.1.1,
            },
    )
}

fn push_block(o: &mut Vec<u8>, b: &Block)
    ensures
        final(o)@ == old(o)@ + block_bytes()(b@),
{
    push_u64(o, b.height);
    push_u64(o, b.timestamp);
    push_u64(o, b.nonce);
    push_bytes(o, b.prev_hash.as_str().as_bytes());
    push_txs(o, &b.transactions);
    assert(o@ =~= old(o)@ + block_bytes()(b@));
}

/// Canonical block encoding.
pub fn encode_block(b: &Block) -> (r: Vec<u8>)
    ensures
        r@ == block_bytes()(b@),
{
    let mut o: Vec<u8> = Vec::new();
    push_block(&mut o, b);
    assert(o@ =~= block_bytes()(b@));
    o
}

impl<'a> Reader<'a> {
    /// Reads a block.
    pub fn block(&mut self) -> (r: Result<Block, WireFault>)
        ensures
            match block()(old(self)@) {
                Ok((v, rest)) => (r matches Ok(b) && b@ == v) && final(self)@ == rest,
                Err(e) => r == Err::<Block, WireFault>(e),
            },
    {
        reveal(block);
        let height: u64 = match self.u64() {
            Ok(v) => v,
            Err(e) => {
                return Err(e);
            },
        };
        let timestamp: u64 = match self.u64() {
            Ok(v) => v,
            Err(e) => {
                return Err(e);
            },
        };
        let nonce: u64 = match self.u64() {
            Ok(v) => v,
            Err(e) => {
                return Err(e);
            },
        };
        let prev_hash: String = match self.text() {
            Ok(v) => v,
            Err(e) => {
                return Err(e);
            },
        };
        match self.txs(MAX_MSG) {
            Ok(transactions) => Ok(Block { height, prev_hash, timestamp, transactions, nonce }),
            Err(e) => Err(e),
        }
    }
}

/// Decodes one block.
pub fn decode_block(d: &[u8]) -> (r: Result<Block, NetError>)
    ensures
        match payload(block(), d@) {
            Ok(v) => r matches Ok(b) && b@ == v,
            Err(e) => r == Err::<Block, NetError>(e.net()),
        },
{
    let mut rd: Reader<'_> = Reader::new(d);
    match rd.block() {
        Ok(b) => Ok(b),
        Err(e) => Err(e.to_net()),
    }
}

/// Blocks behind their number.
pub open spec fn blocks_bytes(s: Seq<BlockModel>) -> Seq<u8> {
    listed(block_bytes(), s)
}

/// Reads blocks behind their number.
pub open spec fn blocks() -> Parser<Seq<BlockModel>> {
    counted(block(), MAX_MSG as nat)
}

/// Encodes blocks: their number, then each of them.
pub fn encode_blocks(blocks: &[Block]) -> (r: Vec<u8>)
    ensures
        r@ == blocks_bytes(blocks_of(blocks@)),
{
    let mut o: Vec<u8> = Vec::new();
    push_len(&mut o, blocks.len());
    let ghost head = o@;
    let ghost all = blocks_of(blocks@);
    let mut i: usize = 0;
    assert(all.skip(0) =~= all);
    while i < blocks.len()
        invariant
            i <= blocks@.len(),
            all == blocks_of(blocks@),
            o@ + joined(block_bytes(), all.skip(i as int)) == head + joined(block_bytes(), all),
        decreases blocks@.len() - i,
    {
        let ghost was = o@;
        push_block(&mut o, &blocks[i]);
        proof {
            let rest = all.skip(i as int);
            assert(rest[0] == all[i as int]);
            assert(rest.drop_first() =~= all.skip(i + 1));
            assert(was + joined(block_bytes(), rest) =~= o@ + joined(
                block_bytes(),
                all.skip(i + 1),
            ));
        }
        i = i + 1;
    }
    assert(all.skip(i as int) =~= Seq::empty());
    assert(o@ =~= blocks_bytes(all));
    o
}

/// Decodes blocks.
pub fn decode_blocks(p: &[u8]) -> (r: Result<Vec<Block>, NetError>)
    ensures
        match payload(blocks(), p@) {
            Ok(v) => r matches Ok(l) && blocks_of(l@) == v,
            Err(e) => r == Err::<Vec<Block>, NetError>(e.net()),
        },
{
    let mut rd: Reader<'_> = Reader::new(p);
    let n: usize = match rd.count(MAX_MSG) {
        Ok(n) => n,
        Err(e) => {
            return Err(e.to_net());
        },
    };
    let ghost from = rd@;
    let mut out: Vec<Block> = Vec::new();
    let mut k: usize = 0;
    assert(blocks_of(out@) =~= Seq::empty());
    proof {
        lemma_prepend_nothing(times(block(), from, n as nat));
    }
    while k < n
        invariant
            k <= n,
            blocks()(p@) == times(block(), from, n as nat),
            times(block(), from, n as nat) == prepended(
                blocks_of(out@),
                times(block(), rd@, (n - k) as nat),
            ),
        decreases n - k,
    {
        let ghost was = blocks_of(out@);
        match rd.block() {
            Ok(b) => {
                let ghost x = b@;
                out.push(b);
                proof {
                    assert(blocks_of(out@) =~= was.push(x));
                    lemma_prepend_push(was, x, times(block(), rd@, (n - k - 1) as nat));
                }
            },
            Err(e) => {
                return Err(e.to_net());
            },
        }
        k = k + 1;
    }
    assert(blocks_of(out@) + Seq::empty() =~= blocks_of(out@));
    Ok(out)
}

// ---------------------------------------------------------------------------
// addresses
// ---------------------------------------------------------------------------

/// The contents of a list of texts.
pub open spec fn texts_of(s: Seq<String>) -> Seq<Seq<char>> {
    Seq::new(s.len(), |i: int| s[i]@)
}

/// A text on the wire.
pub open spec fn text_bytes() -> spec_fn(Seq<char>) -> Seq<u8> {
    |t: Seq<char>| sized_bytes(encode_utf8(t))
}

/// Addresses behind their number.
pub open spec fn addrs_bytes(s: Seq<Seq<char>>) -> Seq<u8> {
    listed(text_bytes(), s)
}

/// Reads addresses behind their number.
pub open spec fn addresses() -> Parser<Seq<Seq<char>>> {
    counted(utf8(), MAX_ADDR_MSG as nat)
}

/// ADDR payload: u32 count + count × length-prefixed "ip:port" strings.
pub fn encode_addrs(addrs: &[String]) -> (r: Vec<u8>)
    ensures
        r@ == addrs_bytes(texts_of(addrs@)),
{
    let mut o: Vec<u8> = Vec::new();
    push_len(&mut o, addrs.len());
    let ghost head = o@;
    let ghost all = texts_of(addrs@);
    let mut i: usize = 0;
    assert(all.skip(0) =~= all);
    while i < addrs.len()
        invariant
            i <= addrs@.len(),
            all == texts_of(addrs@),
            o@ + joined(text_bytes(), all.skip(i as int)) == head + joined(text_bytes(), all),
        decreases addrs@.len() - i,
    {
        let ghost was = o@;
        push_bytes(&mut o, addrs[i].as_str().as_bytes());
        proof {
            let rest = all.skip(i as int);
            assert(rest[0] == all[i as int]);
            assert(rest.drop_first() =~= all.skip(i + 1));
            assert(was + joined(text_bytes(), rest) =~= o@ + joined(
                text_bytes(),
                all.skip(i + 1),
            ));
        }
        i = i + 1;
    }
    assert(all.skip(i as int) =~= Seq::empty());
    assert(o@ =~= addrs_bytes(all));
    o
}

/// Decodes addresses.
pub fn decode_addrs(p: &[u8]) -> (r: Result<Vec<String>, NetError>)
    ensures
        match payload(addresses(), p@) {
            Ok(v) => r matches Ok(l) && texts_of(l@) == v,
            Err(e) => r == Err::<Vec<String>, NetError>(e.net()),
        },
{
    let mut rd: Reader<'_> = Reader::new(p);
    let n: usize = match rd.count(MAX_ADDR_MSG) {
        Ok(n) => n,
        Err(e) => {
            return Err(e.to_net());
        },
    };
    let ghost from = rd@;
    let mut out: Vec<String> = Vec::new();
    let mut k: usize = 0;
    assert(texts_of(out@) =~= Seq::empty());
    proof {
        lemma_prepend_nothing(times(utf8(), from, n as nat));
    }
    while k < n
        invariant
            k <= n,
            addresses()(p@) == times(utf8(), from, n as nat),
            times(utf8(), from, n as nat) == prepended(
                texts_of(out@),
                times(utf8(), rd@, (n - k) as nat),
            ),
        decreases n - k,
    {
        let ghost was = texts_of(out@);
        match rd.text() {
            Ok(t) => {
                let ghost x = t@;
                out.push(t);
                proof {
                    assert(texts_of(out@) =~= was.push(x));
                    lemma_prepend_push(was, x, times(utf8(), rd@, (n - k - 1) as nat));
                }
            },
            Err(e) => {
                return Err(e.to_net());
            },
        }
        k = k + 1;
    }
    assert(texts_of(out@) + Seq::empty() =~= texts_of(out@));
    Ok(out)
}

// ---------------------------------------------------------------------------
// handshake and numbers
// ---------------------------------------------------------------------------

/// A handshake on the wire: magic, version, best height.
pub open spec fn handshake_bytes(magic: u32, version: u32, best_height: u64) -> Seq<u8> {
    le_bytes(magic as nat, 4) + (le_bytes(version as nat, 4) + le_bytes(best_height as nat, 8))
}

/// Reads a handshake.
pub open spec fn handshake() -> Parser<(u32, (u32, u64))> {
    both(word32(), both(word32(), word64()))
}

pub fn encode_handshake(magic: u32, version: u32, best_height: u64) -> (r: Vec<u8>)
    ensures
        r@ == handshake_bytes(magic, version, best_height),
{
    let mut o: Vec<u8> = Vec::new();
    push_u32(&mut o, magic);
    push_u32(&mut o, version);
    push_u64(&mut o, best_height);
    assert(o@ =~= handshake_bytes(magic, version, best_height));
    o
}

/// (magic, version, best_height)
pub fn decode_handshake(p: &[u8]) -> (r: Result<(u32, u32, u64), NetError>)
    ensures
        match payload(handshake(), p@) {
            Ok(v) => r == Ok::<(u32, u32, u64), NetError>((v.0, v.1.0, v.1.1)),
            Err(e) => r == Err::<(u32, u32, u64), NetError>(e.net()),
        },
{
    let mut rd: Reader<'_> = Reader::new(p);
    let magic: u32 = match rd.u32() {
        Ok(v) => v,
        Err(e) => {
            return Err(e.to_net());
        },
    };
    let version: u32 = match rd.u32() {
        Ok(v) => v,
        Err(e) => {
            return Err(e.to_net());
        },
    };
    match rd.u64() {
        Ok(h) => Ok((magic, version, h)),
        Err(e) => Err(e.to_net()),
    }
}

pub fn encode_u64(v: u64) -> (r: Vec<u8>)
    ensures
        r@ == le_bytes(v as nat, 8),
{
    let mut o: Vec<u8> = Vec::new();
    push_u64(&mut o, v);
    assert(o@ =~= le_bytes(v as nat, 8));
    o
}

pub fn decode_u64(p: &[u8]) -> (r: Result<u64, NetError>)
    ensures
        match payload(word64(), p@) {
            Ok(v) => r == Ok::<u64, NetError>(v),
            Err(e) => r == Err::<u64, NetError>(e.net()),
        },
{
    let mut rd: Reader<'_> = Reader::new(p);
    match rd.u64() {
        Ok(v) => Ok(v),
        Err(e) => Err(e.to_net()),
    }
}

// ---------------------------------------------------------------------------
// frames and messages
// ---------------------------------------------------------------------------

/// Why a frame or a message cannot be read off a stream.
pub enum FrameFault {
    /// The stream ends before the frame does.
    Eof,
    /// The frame announces more than `MAX_MSG` bytes.
    TooLarge,
    /// The frame is empty, so it holds no message.
    Empty,
}

/// A frame: the length of the data in four bytes, then the data.
pub open spec fn frame_bytes(data: Seq<u8>) -> Seq<u8> {
    sized_bytes(data)
}

/// The data of the first frame of a stream, and what follows the frame.
pub open spec fn frame(s: Seq<u8>) -> Result<(Seq<u8>, Seq<u8>), FrameFault> {
    if s.len() < 4 {
        Err(FrameFault::Eof)
    } else {
        let n = le_value(s.take(4));
        if n > MAX_MSG {
            Err(FrameFault::TooLarge)
        } else if s.len() < 4 + n {
            Err(FrameFault::Eof)
        } else {
            Ok((s.subrange(4, 4 + n as int), s.skip(4 + n as int)))
        }
    }
}

/// What stands on the stream after a frame was read, or was found wanting.
pub open spec fn behind_frame(s: Seq<u8>) -> Seq<u8> {
    match frame(s) {
        Ok((_, rest)) => rest,
        Err(FrameFault::TooLarge) => s.skip(4),
        Err(_) => Seq::empty(),
    }
}

/// Whether an error says that the stream ended early.
pub open spec fn is_eof(e: NetError) -> bool {
    e matches NetError::Io(io) && io.kind == IoKind::UnexpectedEof && io.text@
        == "failed to fill whole buffer"@
}

fn eof() -> (r: NetError)
    ensures
        is_eof(r),
{
    NetError::Io(
        IoError { kind: IoKind::UnexpectedEof, text: copy_text("failed to fill whole buffer") },
    )
}

/// The number of bytes that a frame announces in its first four.
pub fn frame_len(header: [u8; 4]) -> (r: Result<usize, NetError>)
    ensures
        r == (if le_value(header@) > MAX_MSG {
            Err::<usize, NetError>(NetError::TooLarge)
        } else {
            Ok::<usize, NetError>(le_value(header@) as usize)
        }),
{
    let mut rd: Reader<'_> = Reader::new(header.as_slice());
    proof {
        assert(header@.take(4) =~= header@);
        lemma_pow256();
        crate::bytes::lemma_le_value_bound(header@);
    }
    match rd.count(MAX_MSG) {
        Ok(n) => Ok(n),
        Err(e) => Err(e.to_net()),
    }
}

/// Read one length-prefixed frame (4-byte LE length + payload).
pub fn read_frame(r: &mut Reader<'_>) -> (res: Result<Vec<u8>, NetError>)
    ensures
        final(r)@ == behind_frame(old(r)@),
        match frame(old(r)@) {
            Ok((d, _)) => res matches Ok(v) && v@ == d,
            Err(FrameFault::TooLarge) => res == Err::<Vec<u8>, NetError>(NetError::TooLarge),
            Err(_) => res matches Err(e) && is_eof(e),
        },
{
    let ghost s = r@;
    let n: u32 = match r.u32() {
        Ok(n) => n,
        Err(_) => {
            r.drain();
            return Err(eof());
        },
    };
    proof {
        lemma_pow256();
        crate::bytes::lemma_le_value_bound(s.take(4));
    }
    let l: usize = n as usize;
    if l > MAX_MSG {
        return Err(NetError::TooLarge);
    }
    match r.take(l) {
        Ok(d) => {
            let out: Vec<u8> = copy_bytes(d);
            assert(out@ =~= s.subrange(4, 4 + n));
            assert(r@ =~= s.skip(4 + n));
            Ok(out)
        },
        Err(_) => {
            r.drain();
            Err(eof())
        },
    }
}

/// Write one length-prefixed frame.
pub fn write_frame(w: &mut Vec<u8>, data: &[u8]) -> (r: Result<(), NetError>)
    ensures
        r == (if data@.len() > MAX_MSG {
            Err::<(), NetError>(NetError::TooLarge)
        } else {
            Ok::<(), NetError>(())
        }),
        final(w)@ == (if data@.len() > MAX_MSG {
            old(w)@
        } else {
            old(w)@ + frame_bytes(data@)
        }),
{
    if data.len() > MAX_MSG {
        return Err(NetError::TooLarge);
    }
    push_bytes(w, data);
    Ok(())
}

/// A decoded wire message: 1 type byte + payload.
#[derive(Debug)]
pub struct Message {
    pub kind: u8,
    pub payload: Vec<u8>,
}

/// A message as framed data: the type byte, then the payload.
pub open spec fn message_data(kind: u8, payload: Seq<u8>) -> Seq<u8> {
    seq![kind] + payload
}

/// The first message of a stream: its type and its payload.
pub open spec fn message(s: Seq<u8>) -> Result<(u8, Seq<u8>), FrameFault> {
    match frame(s) {
        Ok((d, _)) => if d.len() == 0 {
            Err(FrameFault::Empty)
        } else {
            Ok((d[0], d.drop_first()))
        },
        Err(e) => Err(e),
    }
}

/// Read one message.
pub fn read_message(r: &mut Reader<'_>) -> (res: Result<Message, NetError>)
    ensures
        final(r)@ == behind_frame(old(r)@),
        match message(old(r)@) {
            Ok((kind, payload)) => res matches Ok(m) && m.kind == kind && m.payload@ == payload,
            Err(FrameFault::TooLarge) => res == Err::<Message, NetError>(NetError::TooLarge),
            Err(FrameFault::Empty) => res == Err::<Message, NetError>(NetError::Truncated),
            Err(FrameFault::Eof) => res matches Err(e) && is_eof(e),
        },
{
    match read_frame(r) {
        Ok(buf) => {
            if buf.len() == 0 {
                return Err(NetError::Truncated);
            }
            let rest: Vec<u8> = copy_bytes(
                vstd::slice::slice_subrange(buf.as_slice(), 1, buf.len()),
            );
            assert(rest@ =~= buf@.drop_first());
            Ok(Message { kind: buf[0], payload: rest })
        },
        Err(e) => Err(e),
    }
}

/// Write one message.
pub fn write_message(w: &mut Vec<u8>, kind: u8, payload: &[u8]) -> (r: Result<(), NetError>)
    ensures
        r == (if payload@.len() >= MAX_MSG {
            Err::<(), NetError>(NetError::TooLarge)
        } else {
            Ok::<(), NetError>(())
        }),
        final(w)@ == (if payload@.len() >= MAX_MSG {
            old(w)@
        } else {
            old(w)@ + frame_bytes(message_data(kind, payload@))
        }),
{
    let mut buf: Vec<u8> = Vec::new();
    buf.push(kind);
    push_slice(&mut buf, payload);
    assert(buf@ =~= message_data(kind, payload@));
    write_frame(w, &buf)
}

} // verus!
