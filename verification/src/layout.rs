//! Where every field stands on the wire, byte for byte, and which announced
//! lengths are refused.
use vstd::prelude::*;
use vstd::utf8::{encode_utf8, valid_utf8};

use crate::block::BlockModel;
use crate::bytes::{le_bytes, lemma_le_round_trip, lemma_pow256, sized_bytes};
use crate::codec::{
    addrs_bytes, behind_frame, block_bytes, blocks_bytes, frame, frame_bytes, handshake_bytes,
    message, message_data, text_bytes, tx_bytes, txin_bytes, txout_bytes, FrameFault,
};
use crate::tx::{TxInModel, TxModel, TxOutModel};
use crate::wire::{counted, joined, listed, reads_back, sized, times, utf8, Parser, WireFault};

verus! {

/// A byte string stands behind its length, which takes four bytes.
pub proof fn law_string_layout(v: Seq<u8>)
    ensures
        sized_bytes(v) == le_bytes(v.len(), 4) + v,
{
}

proof fn lemma_joined<T>(enc: spec_fn(T) -> Seq<u8>, list: Seq<T>)
    ensures
        joined(enc, list) == list.map_values(enc).flatten(),
    decreases list.len(),
{
    if list.len() > 0 {
        lemma_joined(enc, list.drop_first());
        assert(list.map_values(enc).drop_first() =~= list.drop_first().map_values(enc));
    } else {
        assert(list.map_values(enc) =~= Seq::empty());
    }
}

/// A list is its number of items in four bytes, and then every item, one behind
/// the other, in order.
pub proof fn law_list_layout<T>(enc: spec_fn(T) -> Seq<u8>, list: Seq<T>)
    ensures
        listed(enc, list) == le_bytes(list.len(), 4) + list.map_values(enc).flatten(),
{
    lemma_joined(enc, list);
}

/// An input is the identifier of the spent transaction, the index of the output
/// in four bytes, and the signature behind its length.
pub proof fn law_input_layout(i: TxInModel)
    ensures
        txin_bytes()(i) == i.prev_txid + le_bytes(i.vout as nat, 4) + le_bytes(
            i.signature.len(),
            4,
        ) + i.signature,
{
}

/// An output is its amount in eight bytes and the key behind its length.
pub proof fn law_output_layout(o: TxOutModel)
    ensures
        txout_bytes()(o) == le_bytes(o.value as nat, 8) + le_bytes(o.pubkey.len(), 4) + o.pubkey,
{
}

/// A transaction is its version and its lock time in four bytes each, the list
/// of all its inputs and the list of all its outputs.
pub proof fn law_tx_bytes_layout(t: TxModel)
    ensures
        tx_bytes()(t) == le_bytes(t.version as nat, 4) + le_bytes(t.locktime as nat, 4) + le_bytes(
            t.inputs.len(),
            4,
        ) + t.inputs.map_values(
            |i: TxInModel|
                i.prev_txid + le_bytes(i.vout as nat, 4) + le_bytes(i.signature.len(), 4)
                    + i.signature,
        ).flatten() + le_bytes(t.outputs.len(), 4) + t.outputs.map_values(
            |o: TxOutModel|
                le_bytes(o.value as nat, 8) + le_bytes(o.pubkey.len(), 4) + o.pubkey,
        ).flatten(),
{
    let fi = |i: TxInModel|
        i.prev_txid + le_bytes(i.vout as nat, 4) + le_bytes(i.signature.len(), 4) + i.signature;
    let fo = |o: TxOutModel|
        le_bytes(o.value as nat, 8) + le_bytes(o.pubkey.len(), 4) + o.pubkey;
    law_list_layout(txin_bytes(), t.inputs);
    law_list_layout(txout_bytes(), t.outputs);
    assert forall|k: int| 0 <= k < t.inputs.len() implies #[trigger] t.inputs.map_values(
        txin_bytes(),
    )[k] == t.inputs.map_values(fi)[k] by {
        law_input_layout(t.inputs[k]);
    }
    assert forall|k: int| 0 <= k < t.outputs.len() implies #[trigger] t.outputs.map_values(
        txout_bytes(),
    )[k] == t.outputs.map_values(fo)[k] by {
        law_output_layout(t.outputs[k]);
    }
    assert(t.inputs.map_values(txin_bytes()) =~= t.inputs.map_values(fi));
    assert(t.outputs.map_values(txout_bytes()) =~= t.outputs.map_values(fo));
    let a = le_bytes(t.version as nat, 4) + le_bytes(t.locktime as nat, 4);
    let b = le_bytes(t.inputs.len(), 4);
    let c = t.inputs.map_values(fi).flatten();
    let d = le_bytes(t.outputs.len(), 4);
    let e = t.outputs.map_values(fo).flatten();
    assert(a + ((b + c) + (d + e)) =~= a + b + c + d + e);
}

/// A block is its height, its time and its nonce in eight bytes each, the
/// previous hash as text behind its length, and the list of all its
/// transactions.
pub proof fn law_block_bytes_layout(b: BlockModel)
    ensures
        block_bytes()(b) == le_bytes(b.height as nat, 8) + le_bytes(b.timestamp as nat, 8)
            + le_bytes(b.nonce as nat, 8) + le_bytes(encode_utf8(b.prev_hash).len(), 4)
            + encode_utf8(b.prev_hash) + le_bytes(b.transactions.len(), 4)
            + b.transactions.map_values(tx_bytes()).flatten(),
{
    law_list_layout(tx_bytes(), b.transactions);
    let h = le_bytes(b.height as nat, 8);
    let t = le_bytes(b.timestamp as nat, 8);
    let n = le_bytes(b.nonce as nat, 8);
    let l = le_bytes(encode_utf8(b.prev_hash).len(), 4);
    let p = encode_utf8(b.prev_hash);
    let k = le_bytes(b.transactions.len(), 4);
    let x = b.transactions.map_values(tx_bytes()).flatten();
    assert((h + (t + n)) + ((l + p) + (k + x)) =~= h + t + n + l + p + k + x);
}

/// Blocks stand behind their number, every one of them, in order.
pub proof fn law_blocks_layout(list: Seq<BlockModel>)
    ensures
        blocks_bytes(list) == le_bytes(list.len(), 4) + list.map_values(block_bytes()).flatten(),
{
    law_list_layout(block_bytes(), list);
}

/// Addresses stand behind their number, every one of them as text behind its
/// length, in order.
pub proof fn law_addresses_layout(list: Seq<Seq<char>>)
    ensures
        addrs_bytes(list) == le_bytes(list.len(), 4) + list.map_values(
            |a: Seq<char>| le_bytes(encode_utf8(a).len(), 4) + encode_utf8(a),
        ).flatten(),
{
    let f = |a: Seq<char>| le_bytes(encode_utf8(a).len(), 4) + encode_utf8(a);
    law_list_layout(text_bytes(), list);
    assert(list.map_values(text_bytes()) =~= list.map_values(f));
}

/// A handshake is the magic and the version in four bytes each and the height
/// in eight.
pub proof fn law_handshake_layout(magic: u32, version: u32, height: u64)
    ensures
        handshake_bytes(magic, version, height) == le_bytes(magic as nat, 4) + le_bytes(
            version as nat,
            4,
        ) + le_bytes(height as nat, 8),
{
}

/// A framed message is the length of what follows in four bytes, its type, and
/// its payload.
pub proof fn law_message_layout(kind: u8, body: Seq<u8>)
    ensures
        frame_bytes(message_data(kind, body)) == le_bytes(body.len() + 1, 4) + seq![kind] + body,
{
    assert(frame_bytes(message_data(kind, body)) =~= le_bytes(body.len() + 1, 4) + seq![kind]
        + body);
}

/// A byte string that announces more than the cap is refused as too large,
/// whatever follows, and one within the cap is not.
pub proof fn law_long_string_is_refused(n: u32, rest: Seq<u8>)
    ensures
        n > 4_194_304 <==> sized()(le_bytes(n as nat, 4) + rest) == Err::<(Seq<u8>, Seq<u8>), _>(
            WireFault::TooLarge,
        ),
{
    let s = le_bytes(n as nat, 4) + rest;
    lemma_pow256();
    lemma_le_round_trip(n as nat, 4);
    assert(s.take(4) =~= le_bytes(n as nat, 4));
}

/// A list that announces more items than its cap is refused as too large,
/// whatever follows.
pub proof fn law_long_list_is_refused<T>(p: Parser<T>, max: nat, n: u32, rest: Seq<u8>)
    requires
        n > max,
    ensures
        counted(p, max)(le_bytes(n as nat, 4) + rest) == Err::<(Seq<T>, Seq<u8>), _>(
            WireFault::TooLarge,
        ),
{
    let s = le_bytes(n as nat, 4) + rest;
    lemma_pow256();
    lemma_le_round_trip(n as nat, 4);
    assert(s.take(4) =~= le_bytes(n as nat, 4));
}

/// A frame that announces more than the cap is refused as too large before any
/// of it is read; an empty one holds no message.
pub proof fn law_long_frame_is_refused(n: u32, rest: Seq<u8>)
    ensures
        n > 4_194_304 ==> {
            let s = le_bytes(n as nat, 4) + rest;
            &&& frame(s) == Err::<(Seq<u8>, Seq<u8>), _>(FrameFault::TooLarge)
            &&& message(s) == Err::<(u8, Seq<u8>), _>(FrameFault::TooLarge)
            &&& behind_frame(s) == rest
        },
        n == 0 ==> {
            let s = le_bytes(n as nat, 4) + rest;
            &&& message(s) == Err::<(u8, Seq<u8>), _>(FrameFault::Empty)
            &&& behind_frame(s) == rest
        },
{
    let s = le_bytes(n as nat, 4) + rest;
    lemma_pow256();
    lemma_le_round_trip(n as nat, 4);
    assert(s.take(4) =~= le_bytes(n as nat, 4));
    assert(s.skip(4) =~= rest);
}

/// A text whose bytes are no UTF-8 is refused.
pub proof fn law_broken_text_is_refused(b: Seq<u8>, rest: Seq<u8>)
    requires
        b.len() <= 4_194_304,
        !valid_utf8(b),
    ensures
        utf8()(le_bytes(b.len(), 4) + b + rest) == Err::<(Seq<char>, Seq<u8>), _>(
            WireFault::Truncated,
        ),
{
    let s = le_bytes(b.len(), 4) + b + rest;
    lemma_pow256();
    lemma_le_round_trip(b.len(), 4);
    assert(s.take(4) =~= le_bytes(b.len(), 4));
    assert(s.skip(4).take(b.len() as int) =~= b);
}

proof fn lemma_times_fault<T>(
    p: Parser<T>,
    enc: spec_fn(T) -> Seq<u8>,
    list: Seq<T>,
    bad: Seq<u8>,
    n: nat,
)
    requires
        forall|i: int| 0 <= i < list.len() ==> reads_back(p, enc(#[trigger] list[i]), list[i]),
        p(bad) is Err,
        n > list.len(),
    ensures
        times(p, joined(enc, list) + bad, n) == Err::<(Seq<T>, Seq<u8>), _>(p(bad)->Err_0),
    decreases list.len(),
{
    if list.len() > 0 {
        let tail = list.drop_first();
        assert forall|i: int| 0 <= i < tail.len() implies reads_back(
            p,
            enc(#[trigger] tail[i]),
            tail[i],
        ) by {
            assert(tail[i] == list[i + 1]);
        }
        lemma_times_fault(p, enc, tail, bad, (n - 1) as nat);
        let more = joined(enc, tail) + bad;
        assert(joined(enc, list) + bad =~= enc(list[0]) + more);
        assert(reads_back(p, enc(list[0]), list[0]));
        assert(p(enc(list[0]) + more) == Ok::<_, WireFault>((list[0], more)));
    } else {
        assert(joined(enc, list) + bad =~= bad);
    }
}

/// The first item of a list that cannot be read decides why the list is
/// refused.
pub proof fn law_first_fault_decides<T>(
    p: Parser<T>,
    enc: spec_fn(T) -> Seq<u8>,
    list: Seq<T>,
    bad: Seq<u8>,
    n: u32,
    max: nat,
)
    requires
        forall|i: int| 0 <= i < list.len() ==> reads_back(p, enc(#[trigger] list[i]), list[i]),
        p(bad) is Err,
        list.len() < n <= max,
    ensures
        counted(p, max)(le_bytes(n as nat, 4) + list.map_values(enc).flatten() + bad) == Err::<
            (Seq<T>, Seq<u8>),
            _,
        >(p(bad)->Err_0),
{
    let s = le_bytes(n as nat, 4) + list.map_values(enc).flatten() + bad;
    lemma_joined(enc, list);
    lemma_pow256();
    lemma_le_round_trip(n as nat, 4);
    assert(s.take(4) =~= le_bytes(n as nat, 4));
    assert(s.skip(4) =~= joined(enc, list) + bad);
    lemma_times_fault(p, enc, list, bad, n as nat);
}

} // verus!
