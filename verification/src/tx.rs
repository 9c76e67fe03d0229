//! Transactions: inputs and outputs under post-quantum keys, and the digest
//! that an input's signature covers.
use vstd::prelude::*;

use crate::bytes::{copy_bytes, le_bytes, push_bytes, push_slice, push_u32, push_u64, sized_bytes};
use crate::hashing::{hex_of, hex_text, sha256d, sha256d_of};

verus! {

/// An output: an amount under a verifying key.
#[derive(Debug)]
pub struct TxOut {
    /// Value in satoshis.
    pub value: u64,
    /// Serialized post-quantum verifying key committing this output.
    pub pubkey: Vec<u8>,
}

/// An input: the output that it spends, and the signature that permits it.
#[derive(Debug)]
pub struct TxIn {
    /// The transaction that made the output.
    pub prev_txid: [u8; 32],
    /// Index of the output in that transaction.
    pub vout: u32,
    /// Serialized signature over the sighash.
    pub signature: Vec<u8>,
}

/// A transaction.
#[derive(Debug)]
pub struct Transaction {
    pub version: u32,
    pub inputs: Vec<TxIn>,
    pub outputs: Vec<TxOut>,
    pub locktime: u32,
}

/// The contents of a [`TxOut`].
pub struct TxOutModel {
    pub value: u64,
    pub pubkey: Seq<u8>,
}

/// The contents of a [`TxIn`].
pub struct TxInModel {
    pub prev_txid: Seq<u8>,
    pub vout: u32,
    pub signature: Seq<u8>,
}

/// The contents of a [`Transaction`].
pub struct TxModel {
    pub version: u32,
    pub inputs: Seq<TxInModel>,
    pub outputs: Seq<TxOutModel>,
    pub locktime: u32,
}

impl View for TxOut {
    type V = TxOutModel;

    open spec fn view(&self) -> TxOutModel {
        TxOutModel { value: self.value, pubkey: self.pubkey@ }
    }
}

impl View for TxIn {
    type V = TxInModel;

    open spec fn view(&self) -> TxInModel {
        TxInModel { prev_txid: self.prev_txid@, vout: self.vout, signature: self.signature@ }
    }
}

/// The contents of a list of inputs.
pub open spec fn txins(s: Seq<TxIn>) -> Seq<TxInModel> {
    Seq::new(s.len(), |i: int| s[i]@)
}

/// The contents of a list of outputs.
pub open spec fn txouts(s: Seq<TxOut>) -> Seq<TxOutModel> {
    Seq::new(s.len(), |i: int| s[i]@)
}

/// The contents of a list of transactions.
pub open spec fn txs_of(s: Seq<Transaction>) -> Seq<TxModel> {
    Seq::new(s.len(), |i: int| s[i]@)
}

impl View for Transaction {
    type V = TxModel;

    open spec fn view(&self) -> TxModel {
        TxModel {
            version: self.version,
            inputs: txins(self.inputs@),
            outputs: txouts(self.outputs@),
            locktime: self.locktime,
        }
    }
}

impl Clone for TxOut {
    fn clone(&self) -> (r: Self)
        ensures
            r@ == self@,
    {
        TxOut { value: self.value, pubkey: copy_bytes(&self.pubkey) }
    }
}

impl Clone for TxIn {
    fn clone(&self) -> (r: Self)
        ensures
            r@ == self@,
    {
        TxIn {
            prev_txid: self.prev_txid,
            vout: self.vout,
            signature: copy_bytes(&self.signature),
        }
    }
}

impl Clone for Transaction {
    fn clone(&self) -> (r: Self)
        ensures
            r@ == self@,
    {
        let mut inputs: Vec<TxIn> = Vec::new();
        let mut i: usize = 0;
        while i < self.inputs.len()
            invariant
                i <= self.inputs@.len(),
                txins(inputs@) == txins(self.inputs@).take(i as int),
            decreases self.inputs@.len() - i,
        {
            let ghost was = inputs@;
            inputs.push(self.inputs[i].clone());
            i = i + 1;
            assert(txins(inputs@) =~= txins(was).push(self.inputs@[i - 1]@));
            assert(txins(inputs@) =~= txins(self.inputs@).take(i as int));
        }
        let mut outputs: Vec<TxOut> = Vec::new();
        let mut j: usize = 0;
        while j < self.outputs.len()
            invariant
                j <= self.outputs@.len(),
                txouts(outputs@) == txouts(self.outputs@).take(j as int),
            decreases self.outputs@.len() - j,
        {
            let ghost was = outputs@;
            outputs.push(self.outputs[j].clone());
            j = j + 1;
            assert(txouts(outputs@) =~= txouts(was).push(self.outputs@[j - 1]@));
            assert(txouts(outputs@) =~= txouts(self.outputs@).take(j as int));
        }
        assert(txins(inputs@) =~= txins(self.inputs@));
        assert(txouts(outputs@) =~= txouts(self.outputs@));
        Transaction { version: self.version, inputs, outputs, locktime: self.locktime }
    }
}

impl Default for Transaction {
    fn default() -> (r: Self)
        ensures
            r@ == (TxModel {
                version: 0,
                inputs: Seq::empty(),
                outputs: Seq::empty(),
                locktime: 0,
            }),
    {
        let r = Transaction { version: 0, inputs: Vec::new(), outputs: Vec::new(), locktime: 0 };
        assert(txins(r.inputs@) =~= Seq::empty());
        assert(txouts(r.outputs@) =~= Seq::empty());
        r
    }
}

// ---------------------------------------------------------------------------
// sighash
// ---------------------------------------------------------------------------

/// What the preimage says of the inputs: the outputs that they spend.
pub open spec fn inputs_preimage(s: Seq<TxInModel>) -> Seq<u8>
    decreases s.len(),
{
    if s.len() == 0 {
        Seq::empty()
    } else {
        inputs_preimage(s.drop_last()) + s.last().prev_txid + le_bytes(s.last().vout as nat, 4)
    }
}

/// What the preimage says of the outputs: amounts and keys.
pub open spec fn outputs_preimage(s: Seq<TxOutModel>) -> Seq<u8>
    decreases s.len(),
{
    if s.len() == 0 {
        Seq::empty()
    } else {
        outputs_preimage(s.drop_last()) + le_bytes(s.last().value as nat, 8) + sized_bytes(
            s.last().pubkey,
        )
    }
}

/// The bytes whose digest identifies a transaction: version, spent outputs,
/// made outputs, locktime. Signatures are no part of it.
pub open spec fn tx_preimage(t: TxModel) -> Seq<u8> {
    le_bytes(t.version as nat, 4) + inputs_preimage(t.inputs) + outputs_preimage(t.outputs)
        + le_bytes(t.locktime as nat, 4)
}

/// The digest that identifies a transaction and that its signatures cover.
pub open spec fn tx_sighash(t: TxModel) -> Seq<u8> {
    sha256d_of(tx_preimage(t))
}

/// The identifier of a transaction: its sighash in hexadecimal.
pub open spec fn txid_of(t: TxModel) -> Seq<char> {
    hex_of(tx_sighash(t))
}

impl Transaction {
    /// Canonical pre-signature serialization (sighash basis).
    pub fn sighash_preimage(&self) -> (r: Vec<u8>)
        ensures
            r@ == tx_preimage(self@),
    {
        let mut buf: Vec<u8> = Vec::new();
        push_u32(&mut buf, self.version);
        assert(buf@ =~= le_bytes(self.version as nat, 4));
        let ghost head = buf@;
        let mut i: usize = 0;
        assert(txins(self.inputs@).take(0) =~= Seq::empty());
        assert(buf@ =~= head + inputs_preimage(Seq::empty()));
        while i < self.inputs.len()
            invariant
                i <= self.inputs@.len(),
                buf@ == head + inputs_preimage(txins(self.inputs@).take(i as int)),
            decreases self.inputs@.len() - i,
        {
            push_slice(&mut buf, self.inputs[i].prev_txid.as_slice());
            push_u32(&mut buf, self.inputs[i].vout);
            i = i + 1;
            proof {
                let t = txins(self.inputs@).take(i as int);
                assert(t.drop_last() =~= txins(self.inputs@).take(i - 1));
                assert(buf@ =~= head + inputs_preimage(t));
            }
        }
        assert(txins(self.inputs@).take(i as int) =~= txins(self.inputs@));
        let ghost mid = buf@;
        let mut j: usize = 0;
        assert(txouts(self.outputs@).take(0) =~= Seq::empty());
        assert(buf@ =~= mid + outputs_preimage(Seq::empty()));
        while j < self.outputs.len()
            invariant
                j <= self.outputs@.len(),
                buf@ == mid + outputs_preimage(txouts(self.outputs@).take(j as int)),
            decreases self.outputs@.len() - j,
        {
            push_u64(&mut buf, self.outputs[j].value);
            push_bytes(&mut buf, &self.outputs[j].pubkey);
            j = j + 1;
            proof {
                let t = txouts(self.outputs@).take(j as int);
                assert(t.drop_last() =~= txouts(self.outputs@).take(j - 1));
                assert(buf@ =~= mid + outputs_preimage(t));
            }
        }
        assert(txouts(self.outputs@).take(j as int) =~= txouts(self.outputs@));
        push_u32(&mut buf, self.locktime);
        assert(buf@ =~= tx_preimage(self@));
        buf
    }

    /// Sighash (double SHA-256 of the preimage).
    pub fn sighash(&self) -> (r: [u8; 32])
        ensures
            r@ == tx_sighash(self@),
    {
        sha256d(&self.sighash_preimage())
    }

    /// The transaction's identifier: its sighash in hexadecimal.
    pub fn txid(&self) -> (r: String)
        ensures
            r@ == txid_of(self@),
    {
        hex_text(self.sighash().as_slice())
    }
}

/// The transaction with other signatures on its inputs, in order.
pub open spec fn with_signatures(t: TxModel, sigs: spec_fn(int) -> Seq<u8>) -> TxModel {
    TxModel {
        inputs: Seq::new(
            t.inputs.len(),
            |i: int| TxInModel { signature: sigs(i), ..t.inputs[i] },
        ),
        ..t
    }
}

/// The sighash does not depend on the signatures: signing an input changes
/// neither the digest that was signed nor the transaction's identifier.
pub proof fn law_sighash_ignores_signatures(t: TxModel, sigs: spec_fn(int) -> Seq<u8>)
    ensures
        tx_preimage(with_signatures(t, sigs)) == tx_preimage(t),
        tx_sighash(with_signatures(t, sigs)) == tx_sighash(t),
        txid_of(with_signatures(t, sigs)) == txid_of(t),
{
    lemma_inputs_preimage_ignores_signatures(t.inputs, with_signatures(t, sigs).inputs);
}

proof fn lemma_inputs_preimage_ignores_signatures(a: Seq<TxInModel>, b: Seq<TxInModel>)
    requires
        a.len() == b.len(),
        forall|i: int|
            0 <= i < a.len() ==> (#[trigger] a[i]).prev_txid == b[i].prev_txid && a[i].vout
                == b[i].vout,
    ensures
        inputs_preimage(a) == inputs_preimage(b),
    decreases a.len(),
{
    if a.len() > 0 {
        lemma_inputs_preimage_ignores_signatures(a.drop_last(), b.drop_last());
        assert(a[a.len() - 1].prev_txid == b[a.len() - 1].prev_txid);
    }
}

} // verus!
