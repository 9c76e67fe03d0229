//! What is written reads back, what is cut short is found out, and what is read
//! is an encoding.
use vstd::prelude::*;
use vstd::utf8::encode_utf8;

use crate::block::BlockModel;
use crate::bytes::{
    le_bytes, lemma_le_bytes_len, lemma_le_round_trip, lemma_le_value_bound, lemma_pow256,
    sized_bytes,
};
use crate::codec::{
    addresses, addrs_bytes, behind_frame, block, block_bytes, blocks, blocks_bytes, frame,
    frame_bytes, handshake, handshake_bytes, message, message_data, payload, text_bytes, tx,
    tx_bytes, txin, txin_bytes, txout, txout_bytes, FrameFault,
};
use crate::tx::{TxInModel, TxModel, TxOutModel};
use crate::wire::{
    both, canonical, counted, joined, lemma_both, lemma_both_canonical, lemma_counted,
    lemma_counted_canonical, lemma_made, lemma_raw, lemma_raw_canonical, lemma_sized,
    lemma_sized_canonical, lemma_utf8, lemma_utf8_canonical, lemma_word32, lemma_word32_canonical,
    lemma_word64, lemma_word64_canonical, listed, raw, reads_back, sized, utf8, word32, word64,
    MAX_ADDR_MSG, MAX_MSG, WireFault,
};

verus! {

/// Whether every part of a transaction is within the wire's caps.
pub open spec fn tx_fits(t: TxModel) -> bool {
    &&& t.inputs.len() <= MAX_MSG
    &&& t.outputs.len() <= MAX_MSG
    &&& forall|i: int|
        0 <= i < t.inputs.len() ==> (#[trigger] t.inputs[i]).prev_txid.len() == 32
            && t.inputs[i].signature.len() <= MAX_MSG
    &&& forall|i: int|
        0 <= i < t.outputs.len() ==> (#[trigger] t.outputs[i]).pubkey.len() <= MAX_MSG
}

/// Whether every transaction of a list is within the wire's caps.
pub open spec fn txs_fit(s: Seq<TxModel>) -> bool {
    forall|i: int| 0 <= i < s.len() ==> tx_fits(#[trigger] s[i])
}

/// Whether every part of a block is within the wire's caps.
pub open spec fn block_fits(b: BlockModel) -> bool {
    &&& encode_utf8(b.prev_hash).len() <= MAX_MSG
    &&& b.transactions.len() <= MAX_MSG
    &&& txs_fit(b.transactions)
}

proof fn lemma_txin(i: TxInModel)
    requires
        i.prev_txid.len() == 32,
        i.signature.len() <= MAX_MSG,
    ensures
        reads_back(txin(), txin_bytes()(i), i),
{
    reveal(txin);
    let e = le_bytes(i.vout as nat, 4);
    let f = sized_bytes(i.signature);
    lemma_raw(i.prev_txid);
    lemma_word32(i.vout);
    lemma_sized(i.signature);
    lemma_both(word32(), sized(), e, f, i.vout, i.signature);
    lemma_both(
        raw(32),
        both(word32(), sized()),
        i.prev_txid,
        e + f,
        i.prev_txid,
        (i.vout, i.signature),
    );
    let g = |x: (Seq<u8>, (u32, Seq<u8>))|
        TxInModel { prev_txid: x.0, vout: x.1.0, signature: x.1.1 };
    lemma_made(
        both(raw(32), both(word32(), sized())),
        g,
        i.prev_txid + (e + f),
        (i.prev_txid, (i.vout, i.signature)),
    );
}

proof fn lemma_txout(o: TxOutModel)
    requires
        o.pubkey.len() <= MAX_MSG,
    ensures
        reads_back(txout(), txout_bytes()(o), o),
{
    reveal(txout);
    let e = le_bytes(o.value as nat, 8);
    let f = sized_bytes(o.pubkey);
    lemma_word64(o.value);
    lemma_sized(o.pubkey);
    lemma_both(word64(), sized(), e, f, o.value, o.pubkey);
    let g = |x: (u64, Seq<u8>)| TxOutModel { value: x.0, pubkey: x.1 };
    lemma_made(both(word64(), sized()), g, e + f, (o.value, o.pubkey));
}

/// A transaction within the caps reads back from its encoding, whatever
/// follows it, and every proper prefix of the encoding is found to be cut
/// short.
pub proof fn law_tx_round_trip(t: TxModel)
    requires
        tx_fits(t),
    ensures
        reads_back(tx(), tx_bytes()(t), t),
{
    reveal(tx);
    let a = le_bytes(t.version as nat, 4);
    let b = le_bytes(t.locktime as nat, 4);
    let c = listed(txin_bytes(), t.inputs);
    let d = listed(txout_bytes(), t.outputs);
    assert forall|i: int| 0 <= i < t.inputs.len() implies reads_back(
        txin(),
        txin_bytes()(#[trigger] t.inputs[i]),
        t.inputs[i],
    ) by {
        lemma_txin(t.inputs[i]);
    }
    assert forall|i: int| 0 <= i < t.outputs.len() implies reads_back(
        txout(),
        txout_bytes()(#[trigger] t.outputs[i]),
        t.outputs[i],
    ) by {
        lemma_txout(t.outputs[i]);
    }
    lemma_word32(t.version);
    lemma_word32(t.locktime);
    lemma_counted(txin(), txin_bytes(), t.inputs, MAX_MSG as nat);
    lemma_counted(txout(), txout_bytes(), t.outputs, MAX_MSG as nat);
    let ins = counted(txin(), MAX_MSG as nat);
    let outs = counted(txout(), MAX_MSG as nat);
    lemma_both(word32(), word32(), a, b, t.version, t.locktime);
    lemma_both(ins, outs, c, d, t.inputs, t.outputs);
    lemma_both(
        both(word32(), word32()),
        both(ins, outs),
        a + b,
        c + d,
        (t.version, t.locktime),
        (t.inputs, t.outputs),
    );
    let g = |x: ((u32, u32), (Seq<TxInModel>, Seq<TxOutModel>))|
        TxModel { version: x.0.0, inputs: x.1.0, outputs: x.1.1, locktime: x.0.1 };
    lemma_made(
        both(both(word32(), word32()), both(ins, outs)),
        g,
        (a + b) + (c + d),
        ((t.version, t.locktime), (t.inputs, t.outputs)),
    );
}

/// A list of transactions within the caps reads back from its encoding, and
/// every proper prefix of it is found to be cut short.
pub proof fn law_txs_round_trip(s: Seq<TxModel>, max: nat)
    requires
        txs_fit(s),
        s.len() <= max <= u32::MAX,
    ensures
        reads_back(counted(tx(), max), listed(tx_bytes(), s), s),
{
    assert forall|i: int| 0 <= i < s.len() implies reads_back(
        tx(),
        tx_bytes()(#[trigger] s[i]),
        s[i],
    ) by {
        law_tx_round_trip(s[i]);
    }
    lemma_counted(tx(), tx_bytes(), s, max);
}

/// A block within the caps reads back from its encoding, whatever follows it,
/// and every proper prefix of the encoding is found to be cut short.
pub proof fn law_block_round_trip(b: BlockModel)
    requires
        block_fits(b),
    ensures
        reads_back(block(), block_bytes()(b), b),
{
    reveal(block);
    let h = le_bytes(b.height as nat, 8);
    let t = le_bytes(b.timestamp as nat, 8);
    let n = le_bytes(b.nonce as nat, 8);
    let p = sized_bytes(encode_utf8(b.prev_hash));
    let x = listed(tx_bytes(), b.transactions);
    lemma_word64(b.height);
    lemma_word64(b.timestamp);
    lemma_word64(b.nonce);
    lemma_utf8(b.prev_hash);
    law_txs_round_trip(b.transactions, MAX_MSG as nat);
    let txs = counted(tx(), MAX_MSG as nat);
    lemma_both(word64(), word64(), t, n, b.timestamp, b.nonce);
    lemma_both(
        word64(),
        both(word64(), word64()),
        h,
        t + n,
        b.height,
        (b.timestamp, b.nonce),
    );
    lemma_both(utf8(), txs, p, x, b.prev_hash, b.transactions);
    lemma_both(
        both(word64(), both(word64(), word64())),
        both(utf8(), txs),
        h + (t + n),
        p + x,
        (b.height, (b.timestamp, b.nonce)),
        (b.prev_hash, b.transactions),
    );
    let g = |x: ((u64, (u64, u64)), (Seq<char>, Seq<TxModel>))|
        BlockModel {
            height: x.0.0,
            prev_hash: x.1.0,
            timestamp: x.0.1.0,
            transactions: x.1.1,
            nonce: x.0.1.1,
        };
    lemma_made(
        both(both(word64(), both(word64(), word64())), both(utf8(), txs)),
        g,
        (h + (t + n)) + (p + x),
        ((b.height, (b.timestamp, b.nonce)), (b.prev_hash, b.transactions)),
    );
}

/// A list of blocks within the caps reads back from its encoding, and every
/// proper prefix of it is found to be cut short.
pub proof fn law_blocks_round_trip(s: Seq<BlockModel>)
    requires
        s.len() <= MAX_MSG,
        forall|i: int| 0 <= i < s.len() ==> block_fits(#[trigger] s[i]),
    ensures
        reads_back(blocks(), blocks_bytes(s), s),
{
    assert forall|i: int| 0 <= i < s.len() implies reads_back(
        block(),
        block_bytes()(#[trigger] s[i]),
        s[i],
    ) by {
        law_block_round_trip(s[i]);
    }
    lemma_counted(block(), block_bytes(), s, MAX_MSG as nat);
}

/// A list of addresses within the caps reads back from its encoding, and every
/// proper prefix of it is found to be cut short.
pub proof fn law_addrs_round_trip(s: Seq<Seq<char>>)
    requires
        s.len() <= MAX_ADDR_MSG,
        forall|i: int| 0 <= i < s.len() ==> encode_utf8(#[trigger] s[i]).len() <= MAX_MSG,
    ensures
        reads_back(addresses(), addrs_bytes(s), s),
{
    assert forall|i: int| 0 <= i < s.len() implies reads_back(
        utf8(),
        text_bytes()(#[trigger] s[i]),
        s[i],
    ) by {
        lemma_utf8(s[i]);
    }
    lemma_counted(utf8(), text_bytes(), s, MAX_ADDR_MSG as nat);
}

/// A handshake reads back from its encoding, and every proper prefix of it is
/// found to be cut short.
pub proof fn law_handshake_round_trip(magic: u32, version: u32, best_height: u64)
    ensures
        reads_back(
            handshake(),
            handshake_bytes(magic, version, best_height),
            (magic, (version, best_height)),
        ),
{
    lemma_word32(magic);
    lemma_word32(version);
    lemma_word64(best_height);
    let a = le_bytes(magic as nat, 4);
    let b = le_bytes(version as nat, 4);
    let c = le_bytes(best_height as nat, 8);
    lemma_both(word32(), word64(), b, c, version, best_height);
    lemma_both(word32(), both(word32(), word64()), a, b + c, magic, (version, best_height));
}

/// What reads back as the front of a byte string reads back as a payload, and
/// a payload that was cut short is refused as truncated.
pub proof fn law_payload_round_trip<T>(p: crate::wire::Parser<T>, e: Seq<u8>, x: T)
    requires
        reads_back(p, e, x),
    ensures
        payload(p, e) == Ok::<T, WireFault>(x),
        forall|k: int|
            0 <= k < e.len() ==> #[trigger] payload(p, e.take(k)) == Err::<T, WireFault>(
                WireFault::Truncated,
            ),
{
    assert(e + Seq::empty() =~= e);
    assert(p(e + Seq::empty()) == Ok::<_, WireFault>((x, Seq::<u8>::empty())));
    assert forall|k: int| 0 <= k < e.len() implies #[trigger] payload(p, e.take(k)) == Err::<
        T,
        WireFault,
    >(WireFault::Truncated) by {
        assert(p(e.take(k)) == Err::<(T, Seq<u8>), _>(WireFault::Truncated));
    }
}

// ---------------------------------------------------------------------------
// what is read is an encoding
// ---------------------------------------------------------------------------

proof fn lemma_txin_canonical()
    ensures
        canonical(txin(), txin_bytes()),
{
    reveal(txin);
    let p = both(raw(32), both(word32(), sized()));
    let id = |b: Seq<u8>| b;
    let w = |v: u32| le_bytes(v as nat, 4);
    let z = |b: Seq<u8>| sized_bytes(b);
    lemma_raw_canonical(32);
    lemma_word32_canonical();
    lemma_sized_canonical();
    lemma_both_canonical(word32(), sized(), w, z);
    let wz = |x: (u32, Seq<u8>)| w(x.0) + z(x.1);
    lemma_both_canonical(raw(32), both(word32(), sized()), id, wz);
    assert forall|s: Seq<u8>|
        match #[trigger] txin()(s) {
            Ok((i, rest)) => s == txin_bytes()(i) + rest,
            Err(_) => true,
        } by {
        assert(p(s) is Ok || p(s) is Err);
    }
}

proof fn lemma_txout_canonical()
    ensures
        canonical(txout(), txout_bytes()),
{
    reveal(txout);
    let p = both(word64(), sized());
    let w = |v: u64| le_bytes(v as nat, 8);
    let z = |b: Seq<u8>| sized_bytes(b);
    lemma_word64_canonical();
    lemma_sized_canonical();
    lemma_both_canonical(word64(), sized(), w, z);
    assert forall|s: Seq<u8>|
        match #[trigger] txout()(s) {
            Ok((o, rest)) => s == txout_bytes()(o) + rest,
            Err(_) => true,
        } by {
        assert(p(s) is Ok || p(s) is Err);
    }
}

proof fn lemma_tx_canonical()
    ensures
        canonical(tx(), tx_bytes()),
{
    reveal(tx);
    let max = MAX_MSG as nat;
    let ins = counted(txin(), max);
    let outs = counted(txout(), max);
    let p = both(both(word32(), word32()), both(ins, outs));
    let w = |v: u32| le_bytes(v as nat, 4);
    let i = |v: Seq<TxInModel>| listed(txin_bytes(), v);
    let o = |v: Seq<TxOutModel>| listed(txout_bytes(), v);
    lemma_word32_canonical();
    lemma_txin_canonical();
    lemma_txout_canonical();
    lemma_counted_canonical(txin(), txin_bytes(), max);
    lemma_counted_canonical(txout(), txout_bytes(), max);
    lemma_both_canonical(word32(), word32(), w, w);
    lemma_both_canonical(ins, outs, i, o);
    let ww = |x: (u32, u32)| w(x.0) + w(x.1);
    let io = |x: (Seq<TxInModel>, Seq<TxOutModel>)| i(x.0) + o(x.1);
    lemma_both_canonical(both(word32(), word32()), both(ins, outs), ww, io);
    assert forall|s: Seq<u8>|
        match #[trigger] tx()(s) {
            Ok((t, rest)) => s == tx_bytes()(t) + rest,
            Err(_) => true,
        } by {
        assert(p(s) is Ok || p(s) is Err);
    }
}

proof fn lemma_block_canonical()
    ensures
        canonical(block(), block_bytes()),
{
    reveal(block);
    let max = MAX_MSG as nat;
    let txs = counted(tx(), max);
    let p = both(both(word64(), both(word64(), word64())), both(utf8(), txs));
    let w = |v: u64| le_bytes(v as nat, 8);
    let u = |t: Seq<char>| sized_bytes(encode_utf8(t));
    let l = |v: Seq<TxModel>| listed(tx_bytes(), v);
    lemma_word64_canonical();
    lemma_utf8_canonical();
    lemma_tx_canonical();
    lemma_counted_canonical(tx(), tx_bytes(), max);
    lemma_both_canonical(word64(), word64(), w, w);
    let ww = |x: (u64, u64)| w(x.0) + w(x.1);
    lemma_both_canonical(word64(), both(word64(), word64()), w, ww);
    lemma_both_canonical(utf8(), txs, u, l);
    let www = |x: (u64, (u64, u64))| w(x.0) + ww(x.1);
    let ul = |x: (Seq<char>, Seq<TxModel>)| u(x.0) + l(x.1);
    lemma_both_canonical(both(word64(), both(word64(), word64())), both(utf8(), txs), www, ul);
    assert forall|s: Seq<u8>|
        match #[trigger] block()(s) {
            Ok((b, rest)) => s == block_bytes()(b) + rest,
            Err(_) => true,
        } by {
        assert(p(s) is Ok || p(s) is Err);
    }
}

/// Transaction encodings are canonical: what a transaction is read from is its
/// encoding, and nothing else reads as it.
pub proof fn law_tx_is_canonical(s: Seq<u8>)
    ensures
        match tx()(s) {
            Ok((t, rest)) => s == tx_bytes()(t) + rest,
            Err(_) => true,
        },
{
    lemma_tx_canonical();
}

/// Block encodings are canonical: what a block is read from is its encoding,
/// and nothing else reads as it.
pub proof fn law_block_is_canonical(s: Seq<u8>)
    ensures
        match block()(s) {
            Ok((b, rest)) => s == block_bytes()(b) + rest,
            Err(_) => true,
        },
{
    lemma_block_canonical();
}

/// So are lists of transactions, of blocks and of addresses.
pub proof fn law_lists_are_canonical(s: Seq<u8>, max: nat)
    ensures
        match counted(tx(), max)(s) {
            Ok((v, rest)) => s == listed(tx_bytes(), v) + rest,
            Err(_) => true,
        },
        match blocks()(s) {
            Ok((v, rest)) => s == blocks_bytes(v) + rest,
            Err(_) => true,
        },
        match addresses()(s) {
            Ok((v, rest)) => s == addrs_bytes(v) + rest,
            Err(_) => true,
        },
{
    lemma_tx_canonical();
    lemma_block_canonical();
    lemma_utf8_canonical();
    lemma_counted_canonical(tx(), tx_bytes(), max);
    lemma_counted_canonical(block(), block_bytes(), MAX_MSG as nat);
    assert(canonical(utf8(), text_bytes())) by {
        assert forall|t: Seq<u8>|
            match #[trigger] utf8()(t) {
                Ok((x, rest)) => t == text_bytes()(x) + rest,
                Err(_) => true,
            } by {}
    }
    lemma_counted_canonical(utf8(), text_bytes(), MAX_ADDR_MSG as nat);
}

/// So are handshakes.
pub proof fn law_handshake_is_canonical(s: Seq<u8>)
    ensures
        match handshake()(s) {
            Ok((h, rest)) => s == handshake_bytes(h.0, h.1.0, h.1.1) + rest,
            Err(_) => true,
        },
{
    let w = |v: u32| le_bytes(v as nat, 4);
    let d = |v: u64| le_bytes(v as nat, 8);
    lemma_word32_canonical();
    lemma_word64_canonical();
    lemma_both_canonical(word32(), word64(), w, d);
    let wd = |x: (u32, u64)| w(x.0) + d(x.1);
    lemma_both_canonical(word32(), both(word32(), word64()), w, wd);
    assert(both(word32(), both(word32(), word64()))(s) == handshake()(s));
}

/// So are frames: what the data of a frame is read from is the frame of that
/// data.
pub proof fn law_frame_is_canonical(s: Seq<u8>)
    ensures
        match frame(s) {
            Ok((data, rest)) => s == frame_bytes(data) + rest,
            Err(_) => true,
        },
{
    if frame(s) is Ok {
        let (data, rest) = frame(s)->Ok_0;
        lemma_le_value_bound(s.take(4));
        assert(s =~= frame_bytes(data) + rest);
    }
}

// ---------------------------------------------------------------------------
// what fits a message is within the caps
// ---------------------------------------------------------------------------

proof fn lemma_joined_len<T>(enc: spec_fn(T) -> Seq<u8>, list: Seq<T>)
    requires
        forall|i: int| 0 <= i < list.len() ==> enc(#[trigger] list[i]).len() >= 1,
    ensures
        list.len() <= joined(enc, list).len(),
        forall|i: int| 0 <= i < list.len() ==> enc(#[trigger] list[i]).len() <= joined(enc, list).len(),
    decreases list.len(),
{
    if list.len() > 0 {
        let tail = list.drop_first();
        assert forall|i: int| 0 <= i < tail.len() implies enc(#[trigger] tail[i]).len() >= 1 by {
            assert(tail[i] == list[i + 1]);
        }
        lemma_joined_len(enc, tail);
        assert(enc(list[0]).len() >= 1);
        assert forall|i: int| 0 <= i < list.len() implies enc(#[trigger] list[i]).len() <= joined(
            enc,
            list,
        ).len() by {
            if i > 0 {
                assert(tail[i - 1] == list[i]);
            }
        }
    }
}

/// A transaction whose encoding fits a message is within the caps.
pub proof fn law_small_tx_fits(t: TxModel)
    requires
        tx_bytes()(t).len() <= MAX_MSG,
        forall|i: int| 0 <= i < t.inputs.len() ==> (#[trigger] t.inputs[i]).prev_txid.len() == 32,
    ensures
        tx_fits(t),
{
    assert forall|i: int| 0 <= i < t.inputs.len() implies txin_bytes()(#[trigger] t.inputs[i]).len()
        == 40 + t.inputs[i].signature.len() by {
        lemma_le_bytes_len(t.inputs[i].vout as nat, 4);
        lemma_le_bytes_len(t.inputs[i].signature.len(), 4);
    }
    assert forall|i: int| 0 <= i < t.outputs.len() implies txout_bytes()(
        #[trigger] t.outputs[i],
    ).len() == 12 + t.outputs[i].pubkey.len() by {
        lemma_le_bytes_len(t.outputs[i].value as nat, 8);
        lemma_le_bytes_len(t.outputs[i].pubkey.len(), 4);
    }
    lemma_joined_len(txin_bytes(), t.inputs);
    lemma_joined_len(txout_bytes(), t.outputs);
    assert forall|i: int| 0 <= i < t.inputs.len() implies (
    #[trigger] t.inputs[i]).signature.len() <= MAX_MSG by {
        assert(txin_bytes()(t.inputs[i]).len() <= joined(txin_bytes(), t.inputs).len());
    }
    assert forall|i: int| 0 <= i < t.outputs.len() implies (
    #[trigger] t.outputs[i]).pubkey.len() <= MAX_MSG by {
        assert(txout_bytes()(t.outputs[i]).len() <= joined(txout_bytes(), t.outputs).len());
    }
}

/// A block whose encoding fits a message is within the caps.
pub proof fn law_small_block_fits(b: BlockModel)
    requires
        block_bytes()(b).len() <= MAX_MSG,
        forall|i: int, j: int|
            0 <= i < b.transactions.len() && 0 <= j < (#[trigger] b.transactions[i]).inputs.len()
                ==> (#[trigger] b.transactions[i].inputs[j]).prev_txid.len() == 32,
    ensures
        block_fits(b),
{
    let txs = b.transactions;
    assert forall|i: int| 0 <= i < txs.len() implies tx_bytes()(#[trigger] txs[i]).len() >= 1 by {
        lemma_le_bytes_len(txs[i].version as nat, 4);
    }
    lemma_joined_len(tx_bytes(), txs);
    assert forall|i: int| 0 <= i < txs.len() implies tx_fits(#[trigger] txs[i]) by {
        assert(tx_bytes()(txs[i]).len() <= joined(tx_bytes(), txs).len());
        assert forall|j: int| 0 <= j < txs[i].inputs.len() implies (
        #[trigger] txs[i].inputs[j]).prev_txid.len() == 32 by {
            assert(b.transactions[i].inputs[j].prev_txid.len() == 32);
        }
        law_small_tx_fits(txs[i]);
    }
}

// ---------------------------------------------------------------------------
// frames
// ---------------------------------------------------------------------------

/// A frame of at most `MAX_MSG` bytes reads back, whatever follows it on the
/// stream, and leaves what follows.
pub proof fn law_frame_round_trip(data: Seq<u8>, rest: Seq<u8>)
    requires
        data.len() <= MAX_MSG,
    ensures
        frame(frame_bytes(data) + rest) == Ok::<(Seq<u8>, Seq<u8>), FrameFault>((data, rest)),
        behind_frame(frame_bytes(data) + rest) == rest,
{
    let s = frame_bytes(data) + rest;
    lemma_pow256();
    lemma_le_round_trip(data.len(), 4);
    assert(s.take(4) =~= le_bytes(data.len(), 4));
    assert(s.subrange(4, 4 + data.len() as int) =~= data);
    assert(s.skip(4 + data.len() as int) =~= rest);
}

/// A message that fits a frame reads back, whatever follows it on the stream.
pub proof fn law_message_round_trip(kind: u8, body: Seq<u8>, rest: Seq<u8>)
    requires
        body.len() < MAX_MSG,
    ensures
        message(frame_bytes(message_data(kind, body)) + rest) == Ok::<(u8, Seq<u8>), FrameFault>(
            (kind, body),
        ),
        behind_frame(frame_bytes(message_data(kind, body)) + rest) == rest,
{
    law_frame_round_trip(message_data(kind, body), rest);
    assert(message_data(kind, body).drop_first() =~= body);
}

/// A stream that ends inside a frame is found to end early.
pub proof fn law_cut_frame_is_eof(data: Seq<u8>, k: int)
    requires
        data.len() <= MAX_MSG,
        0 <= k < frame_bytes(data).len(),
    ensures
        frame(frame_bytes(data).take(k)) == Err::<(Seq<u8>, Seq<u8>), FrameFault>(FrameFault::Eof),
{
    let s = frame_bytes(data).take(k);
    lemma_pow256();
    lemma_le_round_trip(data.len(), 4);
    if k >= 4 {
        assert(s.take(4) =~= le_bytes(data.len(), 4));
    }
}

} // verus!
