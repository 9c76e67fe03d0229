//! The set of unspent outputs.
use vstd::prelude::*;

use crate::assoc::{
    assoc_map, has_key, keys_distinct, lemma_assoc_at, lemma_assoc_contains, lemma_assoc_len,
    lemma_assoc_push, lemma_assoc_remove, lemma_assoc_update,
};
use crate::bytes::copy_bytes;
use crate::text::{copy_text, same_text};
use crate::tx::TxOutModel;

verus! {

/// What names an output: the transaction's identifier and the output's index.
pub type OutputKey = (Seq<char>, u32);

/// An unspent output.
#[derive(Debug)]
pub struct Utxo {
    pub txid: String,
    pub vout: u32,
    pub value: u64,
    pub pubkey: Vec<u8>,
}

impl Utxo {
    /// The name of the output.
    pub open spec fn key(&self) -> OutputKey {
        (self.txid@, self.vout)
    }

    /// The amount and the key that the output holds.
    pub open spec fn coin(&self) -> TxOutModel {
        TxOutModel { value: self.value, pubkey: self.pubkey@ }
    }
}

impl Clone for Utxo {
    fn clone(&self) -> (r: Self)
        ensures
            r.key() == self.key(),
            r.coin() == self.coin(),
    {
        Utxo {
            txid: copy_text(&self.txid),
            vout: self.vout,
            value: self.value,
            pubkey: copy_bytes(&self.pubkey),
        }
    }
}

/// The names and contents of a list of unspent outputs.
pub open spec fn utxo_pairs(s: Seq<Utxo>) -> Seq<(OutputKey, TxOutModel)> {
    Seq::new(s.len(), |i: int| (s[i].key(), s[i].coin()))
}

// ---------------------------------------------------------------------------
// totals
// ---------------------------------------------------------------------------

/// The amounts of a finite set of outputs, summed.
pub open spec fn coin_total(m: Map<OutputKey, TxOutModel>) -> nat
    decreases m.dom().len(),
{
    if m.dom().finite() && m.dom().len() > 0 {
        let k = m.dom().choose();
        m[k].value as nat + coin_total(m.remove(k))
    } else {
        0
    }
}

/// Any output of the set can be counted first.
pub proof fn lemma_total_remove(m: Map<OutputKey, TxOutModel>, k: OutputKey)
    requires
        m.dom().finite(),
        m.contains_key(k),
    ensures
        coin_total(m) == m[k].value as nat + coin_total(m.remove(k)),
        m.remove(k).dom().finite(),
    decreases m.dom().len(),
{
    let c = m.dom().choose();
    assert(m.dom().len() > 0) by {
        if m.dom().len() == 0 {
            assert(m.dom() =~= Set::empty());
        }
    }
    assert(m.dom().contains(c));
    if c != k {
        lemma_total_remove(m.remove(c), k);
        lemma_total_remove(m.remove(k), c);
        assert(m.remove(c).remove(k) =~= m.remove(k).remove(c));
    }
}

/// Adding an output adds its amount, less that of the output it replaces.
pub proof fn lemma_total_insert(m: Map<OutputKey, TxOutModel>, k: OutputKey, out: TxOutModel)
    requires
        m.dom().finite(),
    ensures
        m.insert(k, out).dom().finite(),
        coin_total(m.insert(k, out)) == out.value as nat + coin_total(m.remove(k)),
        coin_total(m.insert(k, out)) <= out.value as nat + coin_total(m),
{
    let n = m.insert(k, out);
    lemma_total_remove(n, k);
    assert(n.remove(k) =~= m.remove(k));
    if m.contains_key(k) {
        lemma_total_remove(m, k);
    } else {
        assert(m.remove(k) =~= m);
    }
}

/// The set of unspent outputs: no output is named twice.
#[derive(Debug)]
pub struct UtxoSet {
    list: Vec<Utxo>,
}

impl View for UtxoSet {
    type V = Map<OutputKey, TxOutModel>;

    closed spec fn view(&self) -> Map<OutputKey, TxOutModel> {
        assoc_map(utxo_pairs(self.list@))
    }
}

impl UtxoSet {
    #[verifier::type_invariant]
    spec fn inv(self) -> bool {
        keys_distinct(utxo_pairs(self.list@))
    }

    /// The empty set.
    pub fn new() -> (r: Self)
        ensures
            r@ == Map::<OutputKey, TxOutModel>::empty(),
    {
        let r = UtxoSet { list: Vec::new() };
        assert(utxo_pairs(r.list@) =~= Seq::empty());
        r
    }

    /// The number of outputs.
    pub fn len(&self) -> (r: usize)
        ensures
            self@.dom().finite(),
            r == self@.dom().len(),
    {
        proof {
            use_type_invariant(self);
            lemma_assoc_len(utxo_pairs(self.list@));
        }
        self.list.len()
    }

    /// Whether there is no output.
    pub fn is_empty(&self) -> (r: bool)
        ensures
            r == (self@ == Map::<OutputKey, TxOutModel>::empty()),
    {
        proof {
            use_type_invariant(self);
            lemma_assoc_len(utxo_pairs(self.list@));
            if self.list@.len() > 0 {
                lemma_assoc_at(utxo_pairs(self.list@), 0);
            } else {
                assert(utxo_pairs(self.list@) =~= Seq::empty());
            }
        }
        self.list.len() == 0
    }

    /// The outputs, each once.
    pub fn entries(&self) -> (r: &Vec<Utxo>)
        ensures
            keys_distinct(utxo_pairs(r@)),
            assoc_map(utxo_pairs(r@)) == self@,
    {
        proof {
            use_type_invariant(self);
        }
        &self.list
    }

    /// Where the output stands in the list.
    fn position(list: &Vec<Utxo>, txid: &str, vout: u32) -> (r: Option<usize>)
        requires
            keys_distinct(utxo_pairs(list@)),
        ensures
            match r {
                Some(i) => i < list@.len() && list@[i as int].key() == (txid@, vout),
                None => !has_key(utxo_pairs(list@), (txid@, vout)),
            },
    {
        let mut i: usize = 0;
        while i < list.len()
            invariant
                i <= list@.len(),
                forall|j: int| 0 <= j < i ==> (#[trigger] list@[j]).key() != (txid@, vout),
            decreases list@.len() - i,
        {
            if list[i].vout == vout && same_text(&list[i].txid, txid) {
                return Some(i);
            }
            i = i + 1;
        }
        proof {
            let p = utxo_pairs(list@);
            if has_key(p, (txid@, vout)) {
                let j = choose|j: int| 0 <= j < p.len() && (#[trigger] p[j]).0 == (txid@, vout);
                assert(list@[j].key() == (txid@, vout));
            }
        }
        None
    }

    /// The output with the given name.
    pub fn get(&self, txid: &str, vout: u32) -> (r: Option<&Utxo>)
        ensures
            match r {
                Some(u) => self@.contains_key((txid@, vout)) && u.key() == (txid@, vout) && u.coin()
                    == self@[(txid@, vout)],
                None => !self@.contains_key((txid@, vout)),
            },
    {
        proof {
            use_type_invariant(self);
            lemma_assoc_contains(utxo_pairs(self.list@), (txid@, vout));
        }
        match Self::position(&self.list, txid, vout) {
            Some(i) => {
                proof {
                    lemma_assoc_at(utxo_pairs(self.list@), i as int);
                }
                Some(&self.list[i])
            },
            None => None,
        }
    }

    /// Whether there is an output with the given name.
    pub fn contains_key(&self, key: &(String, u32)) -> (r: bool)
        ensures
            r == self@.contains_key((key.0@, key.1)),
    {
        self.get(&key.0, key.1).is_some()
    }

    /// Adds an output; one that has the name already makes room for it.
    pub fn insert(&mut self, txid: String, vout: u32, value: u64, pubkey: Vec<u8>)
        ensures
            final(self)@ == old(self)@.insert(
                (txid@, vout),
                (TxOutModel { value, pubkey: pubkey@ }),
            ),
    {
        proof {
            use_type_invariant(&*self);
        }
        let mut list: Vec<Utxo> = Vec::new();
        std::mem::swap(&mut list, &mut self.list);
        let ghost was = list@;
        let ghost key = (txid@, vout);
        let ghost coin = TxOutModel { value, pubkey: pubkey@ };
        let entry = Utxo { txid, vout, value, pubkey };
        proof {
            lemma_assoc_contains(utxo_pairs(was), key);
        }
        match Self::position(&list, &entry.txid, vout) {
            Some(i) => {
                list[i] = entry;
                proof {
                    lemma_assoc_update(utxo_pairs(was), i as int, coin);
                    assert(utxo_pairs(list@) =~= utxo_pairs(was).update(i as int, (key, coin)));
                }
            },
            None => {
                list.push(entry);
                proof {
                    lemma_assoc_push(utxo_pairs(was), key, coin);
                    assert(utxo_pairs(list@) =~= utxo_pairs(was).push((key, coin)));
                }
            },
        }
        self.list = list;
    }

    /// Takes the output with the given name out, and says whether it was there.
    pub fn remove(&mut self, txid: &str, vout: u32) -> (r: bool)
        ensures
            r == old(self)@.contains_key((txid@, vout)),
            final(self)@ == old(self)@.remove((txid@, vout)),
    {
        proof {
            use_type_invariant(&*self);
        }
        let mut list: Vec<Utxo> = Vec::new();
        std::mem::swap(&mut list, &mut self.list);
        let ghost was = list@;
        proof {
            lemma_assoc_contains(utxo_pairs(was), (txid@, vout));
        }
        match Self::position(&list, txid, vout) {
            Some(i) => {
                list.remove(i);
                proof {
                    lemma_assoc_remove(utxo_pairs(was), i as int);
                    assert(utxo_pairs(list@) =~= utxo_pairs(was).remove(i as int));
                }
                self.list = list;
                true
            },
            None => {
                self.list = list;
                assert(assoc_map(utxo_pairs(was)).remove((txid@, vout)) =~= assoc_map(
                    utxo_pairs(was),
                ));
                false
            },
        }
    }
}

impl Clone for UtxoSet {
    fn clone(&self) -> (r: Self)
        ensures
            r@ == self@,
    {
        proof {
            use_type_invariant(self);
        }
        let mut list: Vec<Utxo> = Vec::new();
        let mut i: usize = 0;
        while i < self.list.len()
            invariant
                i <= self.list@.len(),
                utxo_pairs(list@) == utxo_pairs(self.list@).take(i as int),
            decreases self.list@.len() - i,
        {
            let ghost was = list@;
            let entry = self.list[i].clone();
            let ghost pair = (entry.key(), entry.coin());
            list.push(entry);
            i = i + 1;
            assert(utxo_pairs(list@) =~= utxo_pairs(was).push(pair));
            assert(utxo_pairs(list@) =~= utxo_pairs(self.list@).take(i as int));
        }
        assert(utxo_pairs(list@) =~= utxo_pairs(self.list@));
        UtxoSet { list }
    }
}

} // verus!
