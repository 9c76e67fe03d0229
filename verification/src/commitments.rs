//! What the digests commit to: where every field stands in the sighash preimage
//! and in the block header, and that equal bytes mean equal fields.
use vstd::arithmetic::power::pow;
use vstd::arithmetic::power2::pow2;
use vstd::prelude::*;
use vstd::utf8::encode_utf8;

use crate::block::{
    bit_at, block_digest, block_hash, byte_bit, coinbase_of, has_work, header_of, height_commitment,
    lemma_zero_bits, sighashes, with_nonce, zero_bits, BlockModel,
};
use crate::bytes::{
    le_bytes, lemma_le_bytes_len, lemma_le_round_trip, lemma_pow256, pow256, sized_bytes,
};
use crate::hashing::{hex_of, sha256_of, sha256d_of};
use crate::tx::{
    inputs_preimage, outputs_preimage, tx_preimage, tx_sighash, txid_of, TxInModel, TxModel,
    TxOutModel,
};

verus! {

// ---------------------------------------------------------------------------
// numbers
// ---------------------------------------------------------------------------

/// A number is written in as many bytes as asked for, and the byte at `i` is
/// its digit at 256 to the `i`.
pub proof fn law_number_bytes(v: nat, n: nat, i: int)
    requires
        0 <= i < n,
    ensures
        le_bytes(v, n).len() == n,
        le_bytes(v, n)[i] as int == (v as int / pow(256, i as nat)) % 256,
    decreases n,
{
    lemma_le_bytes_len(v, n);
    vstd::arithmetic::power::lemma_pow0(256);
    if i > 0 {
        law_number_bytes(v / 256, (n - 1) as nat, i - 1);
        assert(le_bytes(v, n)[i] == le_bytes(v / 256, (n - 1) as nat)[i - 1]);
        let p = pow(256, (i - 1) as nat);
        vstd::arithmetic::power::lemma_pow_positive(256, (i - 1) as nat);
        vstd::arithmetic::div_mod::lemma_div_denominator(v as int, 256, p);
        assert(pow(256, i as nat) == 256 * p) by {
            reveal(pow);
        }
    }
}

/// Numbers that fit are written apart.
proof fn lemma_number_apart(a: nat, b: nat, n: nat)
    requires
        a < pow256(n),
        b < pow256(n),
        le_bytes(a, n) == le_bytes(b, n),
    ensures
        a == b,
{
    lemma_le_round_trip(a, n);
    lemma_le_round_trip(b, n);
}

// ---------------------------------------------------------------------------
// transactions
// ---------------------------------------------------------------------------

proof fn lemma_inputs_at(s: Seq<TxInModel>)
    requires
        forall|i: int| 0 <= i < s.len() ==> (#[trigger] s[i]).prev_txid.len() == 32,
    ensures
        inputs_preimage(s).len() == 36 * s.len(),
        forall|i: int|
            0 <= i < s.len() ==> inputs_preimage(s).subrange(36 * i, 36 * i + 32) == (
            #[trigger] s[i]).prev_txid && inputs_preimage(s).subrange(36 * i + 32, 36 * i + 36)
                == le_bytes(s[i].vout as nat, 4),
    decreases s.len(),
{
    if s.len() > 0 {
        let front = s.drop_last();
        let x = s.last();
        assert forall|i: int| 0 <= i < front.len() implies (#[trigger] front[i]).prev_txid.len()
            == 32 by {
            assert(front[i] == s[i]);
        }
        lemma_inputs_at(front);
        lemma_le_bytes_len(x.vout as nat, 4);
        assert(s[s.len() - 1].prev_txid.len() == 32);
        let p = inputs_preimage(s);
        let q = inputs_preimage(front);
        assert forall|i: int| 0 <= i < s.len() implies p.subrange(36 * i, 36 * i + 32) == (
        #[trigger] s[i]).prev_txid && p.subrange(36 * i + 32, 36 * i + 36) == le_bytes(
            s[i].vout as nat,
            4,
        ) by {
            if i < front.len() {
                assert(front[i] == s[i]);
                assert(p.subrange(36 * i, 36 * i + 32) =~= q.subrange(36 * i, 36 * i + 32));
                assert(p.subrange(36 * i + 32, 36 * i + 36) =~= q.subrange(
                    36 * i + 32,
                    36 * i + 36,
                ));
            } else {
                assert(p.subrange(36 * i, 36 * i + 32) =~= x.prev_txid);
                assert(p.subrange(36 * i + 32, 36 * i + 36) =~= le_bytes(x.vout as nat, 4));
            }
        }
    }
}

proof fn lemma_outputs_len(s: Seq<TxOutModel>)
    ensures
        outputs_preimage(s).len() == s.fold_left(
            0int,
            |a: int, o: TxOutModel| a + 12 + o.pubkey.len(),
        ),
    decreases s.len(),
{
    if s.len() > 0 {
        lemma_outputs_len(s.drop_last());
        lemma_le_bytes_len(s.last().value as nat, 8);
        lemma_le_bytes_len(s.last().pubkey.len(), 4);
    }
}

/// The outputs up to one of them stand at the front.
proof fn lemma_outputs_prefix(s: Seq<TxOutModel>, j: int)
    requires
        0 <= j <= s.len(),
    ensures
        outputs_preimage(s.take(j)).len() <= outputs_preimage(s).len(),
        outputs_preimage(s).take(outputs_preimage(s.take(j)).len() as int) == outputs_preimage(
            s.take(j),
        ),
    decreases s.len(),
{
    let p = outputs_preimage(s);
    if j == s.len() {
        assert(s.take(j) =~= s);
        assert(p.take(p.len() as int) =~= p);
    } else {
        let front = s.drop_last();
        lemma_outputs_prefix(front, j);
        assert(front.take(j) =~= s.take(j));
        let q = outputs_preimage(s.take(j));
        assert(p.take(q.len() as int) =~= outputs_preimage(front).take(q.len() as int));
    }
}

proof fn lemma_output_at(s: Seq<TxOutModel>, j: int)
    requires
        0 <= j < s.len(),
    ensures
        ({
            let at = outputs_preimage(s.take(j)).len() as int;
            let p = outputs_preimage(s);
            &&& at + 12 + s[j].pubkey.len() <= p.len()
            &&& p.subrange(at, at + 8) == le_bytes(s[j].value as nat, 8)
            &&& p.subrange(at + 8, at + 12) == le_bytes(s[j].pubkey.len(), 4)
            &&& p.subrange(at + 12, at + 12 + s[j].pubkey.len()) == s[j].pubkey
        }),
{
    let x = s[j];
    let upto = s.take(j + 1);
    let p = outputs_preimage(s);
    let q = outputs_preimage(upto);
    let at = outputs_preimage(s.take(j)).len() as int;
    let k = x.pubkey.len() as int;
    assert(upto.drop_last() =~= s.take(j));
    assert(upto.last() == x);
    lemma_outputs_prefix(s, j + 1);
    lemma_le_bytes_len(x.value as nat, 8);
    lemma_le_bytes_len(x.pubkey.len(), 4);
    assert(q.len() == at + 12 + k);
    assert(p.subrange(at, at + 8) =~= p.take(q.len() as int).subrange(at, at + 8));
    assert(p.subrange(at + 8, at + 12) =~= p.take(q.len() as int).subrange(at + 8, at + 12));
    assert(p.subrange(at + 12, at + 12 + k) =~= p.take(q.len() as int).subrange(
        at + 12,
        at + 12 + k,
    ));
    assert(q.subrange(at, at + 8) =~= le_bytes(x.value as nat, 8));
    assert(q.subrange(at + 8, at + 12) =~= le_bytes(x.pubkey.len(), 4));
    assert(q.subrange(at + 12, at + 12 + k) =~= x.pubkey);
}

/// Where things stand in the sighash preimage: the version, then 36 bytes for
/// every input with the spent output's identifier and index, then the outputs,
/// and the locktime at the end; and there is nothing else in it.
pub proof fn law_preimage_layout(t: TxModel)
    requires
        forall|i: int| 0 <= i < t.inputs.len() ==> (#[trigger] t.inputs[i]).prev_txid.len() == 32,
    ensures
        tx_preimage(t).len() == 8 + 36 * t.inputs.len() + t.outputs.fold_left(
            0int,
            |a: int, o: TxOutModel| a + 12 + o.pubkey.len(),
        ),
        tx_preimage(t).take(4) == le_bytes(t.version as nat, 4),
        tx_preimage(t).skip(tx_preimage(t).len() - 4) == le_bytes(t.locktime as nat, 4),
        forall|i: int|
            0 <= i < t.inputs.len() ==> tx_preimage(t).subrange(4 + 36 * i, 36 + 36 * i) == (
            #[trigger] t.inputs[i]).prev_txid && tx_preimage(t).subrange(36 + 36 * i, 40 + 36 * i)
                == le_bytes(t.inputs[i].vout as nat, 4),
{
    let p = tx_preimage(t);
    let a = inputs_preimage(t.inputs);
    lemma_le_bytes_len(t.version as nat, 4);
    lemma_le_bytes_len(t.locktime as nat, 4);
    lemma_inputs_at(t.inputs);
    lemma_outputs_len(t.outputs);
    assert(p.take(4) =~= le_bytes(t.version as nat, 4));
    assert(p.skip(p.len() - 4) =~= le_bytes(t.locktime as nat, 4));
    assert forall|i: int| 0 <= i < t.inputs.len() implies p.subrange(4 + 36 * i, 36 + 36 * i) == (
    #[trigger] t.inputs[i]).prev_txid && p.subrange(36 + 36 * i, 40 + 36 * i) == le_bytes(
        t.inputs[i].vout as nat,
        4,
    ) by {
        assert(p.subrange(4 + 36 * i, 36 + 36 * i) =~= a.subrange(36 * i, 36 * i + 32));
        assert(p.subrange(36 + 36 * i, 40 + 36 * i) =~= a.subrange(36 * i + 32, 36 * i + 36));
    }
}

/// Where the output at `j` stands in the sighash preimage: behind the inputs and
/// the outputs before it, with its amount, the length of its key and the key.
pub proof fn law_preimage_holds_output(t: TxModel, j: int)
    requires
        forall|i: int| 0 <= i < t.inputs.len() ==> (#[trigger] t.inputs[i]).prev_txid.len() == 32,
        0 <= j < t.outputs.len(),
    ensures
        ({
            let at = 4 + 36 * t.inputs.len() + t.outputs.take(j).fold_left(
                0int,
                |a: int, o: TxOutModel| a + 12 + o.pubkey.len(),
            );
            let p = tx_preimage(t);
            &&& p.subrange(at, at + 8) == le_bytes(t.outputs[j].value as nat, 8)
            &&& p.subrange(at + 8, at + 12) == le_bytes(t.outputs[j].pubkey.len(), 4)
            &&& p.subrange(at + 12, at + 12 + t.outputs[j].pubkey.len()) == t.outputs[j].pubkey
        }),
{
    let p = tx_preimage(t);
    let b = outputs_preimage(t.outputs);
    let off = outputs_preimage(t.outputs.take(j)).len() as int;
    let at = 4 + 36 * t.inputs.len() + off;
    let k = t.outputs[j].pubkey.len() as int;
    lemma_le_bytes_len(t.version as nat, 4);
    lemma_inputs_at(t.inputs);
    lemma_outputs_len(t.outputs.take(j));
    lemma_output_at(t.outputs, j);
    assert(p.subrange(at, at + 8) =~= b.subrange(off, off + 8));
    assert(p.subrange(at + 8, at + 12) =~= b.subrange(off + 8, off + 12));
    assert(p.subrange(at + 12, at + 12 + k) =~= b.subrange(off + 12, off + 12 + k));
}

/// The outputs of a preimage from the front: the first, then the others.
proof fn lemma_outputs_front(s: Seq<TxOutModel>)
    requires
        s.len() > 0,
    ensures
        outputs_preimage(s) == le_bytes(s[0].value as nat, 8) + sized_bytes(s[0].pubkey)
            + outputs_preimage(s.drop_first()),
    decreases s.len(),
{
    let head = le_bytes(s[0].value as nat, 8) + sized_bytes(s[0].pubkey);
    if s.len() == 1 {
        assert(s.drop_last() =~= Seq::empty());
        assert(s.drop_first() =~= Seq::empty());
        assert(outputs_preimage(s.drop_last()) =~= Seq::empty());
        assert(outputs_preimage(s) =~= head + outputs_preimage(s.drop_first()));
    } else {
        lemma_outputs_front(s.drop_last());
        assert(s.drop_last().drop_first() =~= s.drop_first().drop_last());
        assert(outputs_preimage(s) =~= head + outputs_preimage(s.drop_first()));
    }
}

/// Equal encodings of outputs are of equal outputs.
proof fn lemma_outputs_determined(a: Seq<TxOutModel>, b: Seq<TxOutModel>)
    requires
        outputs_preimage(a) == outputs_preimage(b),
        forall|j: int| 0 <= j < a.len() ==> (#[trigger] a[j]).pubkey.len() < 0x1_0000_0000,
        forall|j: int| 0 <= j < b.len() ==> (#[trigger] b[j]).pubkey.len() < 0x1_0000_0000,
    ensures
        a == b,
    decreases a.len(),
{
    lemma_pow256();
    if a.len() > 0 {
        lemma_outputs_front(a);
        lemma_le_bytes_len(a[0].value as nat, 8);
        lemma_le_bytes_len(a[0].pubkey.len(), 4);
    }
    if b.len() > 0 {
        lemma_outputs_front(b);
        lemma_le_bytes_len(b[0].value as nat, 8);
        lemma_le_bytes_len(b[0].pubkey.len(), 4);
    }
    if a.len() > 0 && b.len() > 0 {
        let p = outputs_preimage(a);
        let q = outputs_preimage(b);
        let x = a[0];
        let y = b[0];
        assert(p.subrange(0, 8) =~= le_bytes(x.value as nat, 8));
        assert(q.subrange(0, 8) =~= le_bytes(y.value as nat, 8));
        lemma_number_apart(x.value as nat, y.value as nat, 8);
        assert(p.subrange(8, 12) =~= le_bytes(x.pubkey.len(), 4));
        assert(q.subrange(8, 12) =~= le_bytes(y.pubkey.len(), 4));
        lemma_number_apart(x.pubkey.len(), y.pubkey.len(), 4);
        let k = x.pubkey.len() as int;
        assert(p.subrange(12, 12 + k) =~= x.pubkey);
        assert(q.subrange(12, 12 + k) =~= y.pubkey);
        assert(p.skip(12 + k) =~= outputs_preimage(a.drop_first()));
        assert(q.skip(12 + k) =~= outputs_preimage(b.drop_first()));
        assert forall|j: int| 0 <= j < a.len() - 1 implies (
        #[trigger] a.drop_first()[j]).pubkey.len() < 0x1_0000_0000 by {
            assert(a[j + 1].pubkey.len() < 0x1_0000_0000);
        }
        assert forall|j: int| 0 <= j < b.len() - 1 implies (
        #[trigger] b.drop_first()[j]).pubkey.len() < 0x1_0000_0000 by {
            assert(b[j + 1].pubkey.len() < 0x1_0000_0000);
        }
        lemma_outputs_determined(a.drop_first(), b.drop_first());
        assert(a =~= seq![a[0]] + a.drop_first());
        assert(b =~= seq![b[0]] + b.drop_first());
    } else {
        assert(a =~= b);
    }
}

/// The sighash preimage commits to everything but the signatures: of two
/// transactions with as many inputs, equal preimages have the same version, the
/// same spent outputs, the same made outputs, every one of them with its amount
/// and its key, and the same locktime.
pub proof fn law_preimage_determines_tx(a: TxModel, b: TxModel)
    requires
        a.inputs.len() == b.inputs.len(),
        forall|i: int| 0 <= i < a.inputs.len() ==> (#[trigger] a.inputs[i]).prev_txid.len() == 32,
        forall|i: int| 0 <= i < b.inputs.len() ==> (#[trigger] b.inputs[i]).prev_txid.len() == 32,
        forall|j: int|
            0 <= j < a.outputs.len() ==> (#[trigger] a.outputs[j]).pubkey.len() < 0x1_0000_0000,
        forall|j: int|
            0 <= j < b.outputs.len() ==> (#[trigger] b.outputs[j]).pubkey.len() < 0x1_0000_0000,
        tx_preimage(a) == tx_preimage(b),
    ensures
        a.version == b.version,
        a.locktime == b.locktime,
        forall|i: int|
            0 <= i < a.inputs.len() ==> (#[trigger] a.inputs[i]).prev_txid == b.inputs[i].prev_txid
                && a.inputs[i].vout == b.inputs[i].vout,
        a.outputs == b.outputs,
{
    lemma_pow256();
    law_preimage_layout(a);
    law_preimage_layout(b);
    lemma_number_apart(a.version as nat, b.version as nat, 4);
    lemma_number_apart(a.locktime as nat, b.locktime as nat, 4);
    assert forall|i: int| 0 <= i < a.inputs.len() implies (#[trigger] a.inputs[i]).prev_txid
        == b.inputs[i].prev_txid && a.inputs[i].vout == b.inputs[i].vout by {
        assert(b.inputs[i].prev_txid == tx_preimage(b).subrange(4 + 36 * i, 36 + 36 * i));
        lemma_number_apart(a.inputs[i].vout as nat, b.inputs[i].vout as nat, 4);
    }
    let p = tx_preimage(a);
    let n = 4 + 36 * a.inputs.len();
    lemma_inputs_at(a.inputs);
    lemma_inputs_at(b.inputs);
    lemma_le_bytes_len(a.version as nat, 4);
    lemma_le_bytes_len(b.version as nat, 4);
    lemma_le_bytes_len(a.locktime as nat, 4);
    lemma_le_bytes_len(b.locktime as nat, 4);
    assert(p.subrange(n as int, p.len() - 4) =~= outputs_preimage(a.outputs));
    assert(tx_preimage(b).subrange(n as int, p.len() - 4) =~= outputs_preimage(b.outputs));
    lemma_outputs_determined(a.outputs, b.outputs);
}

/// The sighash is the double SHA-256 of the preimage, and the identifier spells
/// it in hexadecimal.
pub proof fn law_sighash_is_preimage_digest(t: TxModel, p: Seq<u8>)
    requires
        p == tx_preimage(t),
    ensures
        tx_sighash(t) == sha256d_of(p),
        txid_of(t) == hex_of(sha256d_of(p)),
{
}

// ---------------------------------------------------------------------------
// blocks
// ---------------------------------------------------------------------------

proof fn lemma_sighashes_at(s: Seq<TxModel>)
    requires
        forall|i: int| 0 <= i < s.len() ==> tx_sighash(#[trigger] s[i]).len() == 32,
    ensures
        sighashes(s).len() == 32 * s.len(),
        forall|i: int|
            0 <= i < s.len() ==> sighashes(s).subrange(32 * i, 32 * i + 32) == tx_sighash(
                #[trigger] s[i],
            ),
    decreases s.len(),
{
    if s.len() > 0 {
        let front = s.drop_last();
        assert forall|i: int| 0 <= i < front.len() implies tx_sighash(#[trigger] front[i]).len()
            == 32 by {
            assert(front[i] == s[i]);
        }
        lemma_sighashes_at(front);
        assert(tx_sighash(s[s.len() - 1]).len() == 32);
        assert forall|i: int| 0 <= i < s.len() implies sighashes(s).subrange(32 * i, 32 * i + 32)
            == tx_sighash(#[trigger] s[i]) by {
            if i < front.len() {
                assert(front[i] == s[i]);
                assert(sighashes(s).subrange(32 * i, 32 * i + 32) =~= sighashes(front).subrange(
                    32 * i,
                    32 * i + 32,
                ));
            } else {
                assert(sighashes(s).subrange(32 * i, 32 * i + 32) =~= tx_sighash(s[i]));
            }
        }
    }
}

/// Where everything stands in a header: the height, the text of the parent's
/// hash, the time, the nonce, and then the sighash of every transaction in
/// order; and there is nothing else in it.
pub proof fn law_header_layout(b: BlockModel)
    requires
        forall|i: int|
            0 <= i < b.transactions.len() ==> tx_sighash(#[trigger] b.transactions[i]).len() == 32,
    ensures
        ({
            let h = header_of(b);
            let n = encode_utf8(b.prev_hash).len() as int;
            &&& h.len() == 24 + n + 32 * b.transactions.len()
            &&& h.subrange(0, 8) == le_bytes(b.height as nat, 8)
            &&& h.subrange(8, 8 + n) == encode_utf8(b.prev_hash)
            &&& h.subrange(8 + n, 16 + n) == le_bytes(b.timestamp as nat, 8)
            &&& h.subrange(16 + n, 24 + n) == le_bytes(b.nonce as nat, 8)
            &&& forall|i: int|
                0 <= i < b.transactions.len() ==> h.subrange(24 + n + 32 * i, 56 + n + 32 * i)
                    == tx_sighash(#[trigger] b.transactions[i])
        }),
{
    let h = header_of(b);
    let n = encode_utf8(b.prev_hash).len() as int;
    let s = sighashes(b.transactions);
    lemma_le_bytes_len(b.height as nat, 8);
    lemma_le_bytes_len(b.timestamp as nat, 8);
    lemma_le_bytes_len(b.nonce as nat, 8);
    lemma_sighashes_at(b.transactions);
    assert(h.subrange(0, 8) =~= le_bytes(b.height as nat, 8));
    assert(h.subrange(8, 8 + n) =~= encode_utf8(b.prev_hash));
    assert(h.subrange(8 + n, 16 + n) =~= le_bytes(b.timestamp as nat, 8));
    assert(h.subrange(16 + n, 24 + n) =~= le_bytes(b.nonce as nat, 8));
    assert forall|i: int| 0 <= i < b.transactions.len() implies h.subrange(
        24 + n + 32 * i,
        56 + n + 32 * i,
    ) == tx_sighash(#[trigger] b.transactions[i]) by {
        assert(h.subrange(24 + n + 32 * i, 56 + n + 32 * i) =~= s.subrange(32 * i, 32 * i + 32));
    }
}

/// The header commits to the whole block: of two blocks whose parents' hashes
/// are as long, equal headers have the same height, parent, time and nonce, as
/// many transactions, and the same sighash at every place.
pub proof fn law_header_determines_block(a: BlockModel, b: BlockModel)
    requires
        forall|i: int|
            0 <= i < a.transactions.len() ==> tx_sighash(#[trigger] a.transactions[i]).len() == 32,
        forall|i: int|
            0 <= i < b.transactions.len() ==> tx_sighash(#[trigger] b.transactions[i]).len() == 32,
        encode_utf8(a.prev_hash).len() == encode_utf8(b.prev_hash).len(),
        header_of(a) == header_of(b),
    ensures
        a.height == b.height,
        a.prev_hash == b.prev_hash,
        a.timestamp == b.timestamp,
        a.nonce == b.nonce,
        a.transactions.len() == b.transactions.len(),
        forall|i: int|
            0 <= i < a.transactions.len() ==> tx_sighash(#[trigger] a.transactions[i])
                == tx_sighash(b.transactions[i]),
{
    lemma_pow256();
    law_header_layout(a);
    law_header_layout(b);
    lemma_number_apart(a.height as nat, b.height as nat, 8);
    lemma_number_apart(a.timestamp as nat, b.timestamp as nat, 8);
    lemma_number_apart(a.nonce as nat, b.nonce as nat, 8);
    vstd::utf8::encode_utf8_decode_utf8(a.prev_hash);
    vstd::utf8::encode_utf8_decode_utf8(b.prev_hash);
    assert forall|i: int| 0 <= i < a.transactions.len() implies tx_sighash(
        #[trigger] a.transactions[i],
    ) == tx_sighash(b.transactions[i]) by {
        let n = encode_utf8(a.prev_hash).len() as int;
        assert(header_of(b).subrange(24 + n + 32 * i, 56 + n + 32 * i) == tx_sighash(
            b.transactions[i],
        ));
    }
}

/// A block is named by the SHA-256 of the SHA-256 of its header, in
/// hexadecimal.
pub proof fn law_hash_is_header_digest(b: BlockModel, h: Seq<u8>)
    requires
        h == header_of(b),
    ensures
        block_digest(b) == sha256_of(sha256_of(h)),
        block_hash(b) == hex_of(sha256_of(sha256_of(h))),
{
}

/// The work that a difficulty asks for: that many bits at the front of the
/// double SHA-256 of the header are zero, the most significant bit of a byte
/// being its first.
pub proof fn law_work_is_leading_zeros(b: BlockModel, difficulty: u32)
    ensures
        ({
            let d = sha256_of(sha256_of(header_of(b)));
            has_work(b, difficulty) <==> difficulty <= 8 * d.len() && forall|i: int|
                0 <= i < difficulty ==> (d[#[trigger] (i / 8)] as nat / pow2((7 - i % 8) as nat))
                    % 2 == 0
        }),
{
    let d = block_digest(b);
    lemma_zero_bits(d);
    assert forall|i: int| 0 <= i < 8 * d.len() implies #[trigger] bit_at(d, i) == ((d[i / 8] as nat
        / pow2((7 - i % 8) as nat)) % 2 == 1) by {
        lemma_bit(d[i / 8], i % 8);
    }
    if has_work(b, difficulty) {
        assert forall|i: int| 0 <= i < difficulty implies (d[#[trigger] (i / 8)] as nat / pow2(
            (7 - i % 8) as nat,
        )) % 2 == 0 by {
            assert(!bit_at(d, i));
        }
    } else if difficulty <= 8 * d.len() {
        let z = zero_bits(d) as int;
        assert(bit_at(d, z));
        assert((d[z / 8] as nat / pow2((7 - z % 8) as nat)) % 2 == 1);
    }
}

proof fn lemma_bit(b: u8, k: int)
    requires
        0 <= k < 8,
    ensures
        byte_bit(b, k) == ((b as nat / pow2((7 - k) as nat)) % 2 == 1),
{
    vstd::arithmetic::power2::lemma2_to64();
}

/// Another nonce changes the nonce and nothing else.
pub proof fn law_nonce_is_all_that_changes(b: BlockModel, nonce: u64)
    ensures
        with_nonce(b, nonce).nonce == nonce,
        with_nonce(b, nonce).height == b.height,
        with_nonce(b, nonce).prev_hash == b.prev_hash,
        with_nonce(b, nonce).timestamp == b.timestamp,
        with_nonce(b, nonce).transactions == b.transactions,
{
}

/// A coinbase has one input, which spends nothing and holds the height, and
/// pays the whole reward to the key.
pub proof fn law_coinbase_pays_reward(pubkey: Seq<u8>, reward: u64, height: u64)
    ensures
        ({
            let t = coinbase_of(pubkey, reward, height);
            &&& t.version == 1
            &&& t.locktime == 0
            &&& t.inputs.len() == 1
            &&& t.inputs[0].prev_txid.len() == 32
            &&& t.inputs[0].prev_txid.take(8) == le_bytes(height as nat, 8)
            &&& forall|i: int| 8 <= i < 32 ==> t.inputs[0].prev_txid[i] == 0
            &&& t.inputs[0].vout == 0xffff_ffff
            &&& t.inputs[0].signature.len() == 0
            &&& t.outputs.len() == 1
            &&& t.outputs[0].value == reward
            &&& t.outputs[0].pubkey == pubkey
        }),
{
    lemma_le_bytes_len(height as nat, 8);
    assert(height_commitment(height).take(8) =~= le_bytes(height as nat, 8));
}

/// The leading zero bits of a byte string: that many bits at its front are
/// zero, the most significant bit of a byte being its first, and the next one,
/// if there is one, is not.
pub proof fn law_leading_zeros_are_counted(d: Seq<u8>, i: int)
    ensures
        zero_bits(d) <= 8 * d.len(),
        0 <= i < zero_bits(d) ==> (d[i / 8] as nat / pow2((7 - i % 8) as nat)) % 2 == 0,
        i == zero_bits(d) && i < 8 * d.len() ==> (d[i / 8] as nat / pow2((7 - i % 8) as nat)) % 2
            == 1,
{
    lemma_zero_bits(d);
    if 0 <= i < 8 * d.len() {
        lemma_bit(d[i / 8], i % 8);
        if i < zero_bits(d) {
            assert(!bit_at(d, i));
        }
    }
}

} // verus!
