//! The wallet: exporting unspent outputs as text, reading such an export back,
//! and building a spend from it.
use vstd::prelude::*;

use crate::assoc::{assoc_map, keys_distinct, lemma_assoc_len};
use crate::block::{coinbase, coinbase_of, Block, BlockModel};
use crate::bytes::{len_u32, to_array_32};
use crate::chain::{coins_under, empty_state, ChainState, Coins, StateModel};
use crate::codec::{decode_tx, encode_tx, payload, tx, tx_bytes};
use crate::hashing::{hex_bytes, hex_of, hex_text, is_hex, unhex};
use crate::sig::PqBitError;
use crate::text::{
    char_lists, chars_of, copy_text, dec_chars, is_white, lines_of, number_in, parse_number,
    push_decimal, split_lines, split_words, text_of, white, words_of,
};
use crate::tx::{Transaction, TxIn, TxInModel, TxModel, TxOut, TxOutModel};
use crate::utxo::{coin_total, utxo_pairs, OutputKey, Utxo, UtxoSet};
use crate::wire::NetError;

verus! {

// ---------------------------------------------------------------------------
// export
// ---------------------------------------------------------------------------

/// A line of an export: "value pubkey_hex", or with the output's name
/// "value pubkey_hex txid_hex vout".
pub open spec fn dump_line(p: (OutputKey, TxOutModel), extended: bool) -> Seq<char> {
    let short = dec_chars(p.1.value as nat) + seq![' '] + hex_of(p.1.pubkey);
    if extended {
        short + seq![' '] + p.0.0 + seq![' '] + dec_chars(p.0.1 as nat)
    } else {
        short
    }
}

/// An export: one line per output.
pub open spec fn dump_text(list: Seq<(OutputKey, TxOutModel)>, extended: bool) -> Seq<char>
    decreases list.len(),
{
    if list.len() == 0 {
        Seq::empty()
    } else {
        dump_text(list.drop_last(), extended) + dump_line(list.last(), extended) + seq!['\n']
    }
}

/// Whether a text is an export of the outputs: each of them once, in any order.
pub open spec fn is_dump(text: Seq<char>, coins: Coins, extended: bool) -> bool {
    exists|list: Seq<(OutputKey, TxOutModel)>|
        keys_distinct(list) && assoc_map(list) == coins && text == #[trigger] dump_text(
            list,
            extended,
        )
}

/// Exports the unspent outputs.
pub fn dump_utxos(chain: &ChainState, extended: bool) -> (r: String)
    ensures
        is_dump(r@, chain@.utxos, extended),
{
    let entries: &Vec<Utxo> = chain.utxos.entries();
    let ghost all = utxo_pairs(entries@);
    let mut out: String = String::new();
    let mut i: usize = 0;
    assert(all.take(0) =~= Seq::empty());
    assert(out@ =~= Seq::empty());
    while i < entries.len()
        invariant
            i <= entries@.len(),
            all == utxo_pairs(entries@),
            out@ == dump_text(all.take(i as int), extended),
        decreases entries@.len() - i,
    {
        let u: &Utxo = &entries[i];
        push_decimal(&mut out, u.value);
        out.push(' ');
        let pk: String = hex_text(&u.pubkey);
        out.append(&pk);
        if extended {
            out.push(' ');
            out.append(&u.txid);
            out.push(' ');
            push_decimal(&mut out, u.vout as u64);
        }
        out.push('\n');
        i = i + 1;
        proof {
            assert(all.take(i as int).drop_last() =~= all.take(i - 1));
            assert(all.take(i as int).last() == (u.key(), u.coin()));
            assert(out@ =~= dump_text(all.take(i as int), extended));
        }
    }
    assert(all.take(i as int) =~= all);
    out
}

// ---------------------------------------------------------------------------
// reading an export back
// ---------------------------------------------------------------------------

/// What is wrong with a line of an export, or with what is built from it.
#[derive(Debug, Clone, Copy, PartialEq, Eq, Structural)]
pub enum WalletError {
    /// An amount is not a number.
    BadValue,
    /// A key is not hexadecimal.
    BadKey,
    /// An output index is not a number.
    BadVout,
    /// No line names an output of ours.
    NoOwnedUtxo,
    /// A transaction identifier is not 32 bytes in hexadecimal.
    BadTxid,
}

/// The number that a word names, or zero.
pub open spec fn number_or_zero(s: Seq<char>, max: nat) -> nat {
    match number_in(s, max) {
        Some(v) => v,
        None => 0,
    }
}

/// The outputs with what a line says added; a number that cannot be read counts
/// as zero, and a line that says nothing is passed over. An output without a
/// name gets the empty identifier and the number of outputs so far.
pub open spec fn lenient_line(coins: Coins, line: Seq<char>) -> Coins {
    let w = words_of(line);
    if w.len() == 2 && is_hex(w[1]) {
        coins.insert(
            (Seq::empty(), (coins.dom().len() % 0x1_0000_0000) as u32),
            TxOutModel {
                value: number_or_zero(w[0], u64::MAX as nat) as u64,
                pubkey: unhex(w[1]),
            },
        )
    } else if w.len() == 4 && is_hex(w[1]) {
        coins.insert(
            (w[2], number_or_zero(w[3], u32::MAX as nat) as u32),
            TxOutModel {
                value: number_or_zero(w[0], u64::MAX as nat) as u64,
                pubkey: unhex(w[1]),
            },
        )
    } else {
        coins
    }
}

/// The outputs that an export spells out, read leniently.
pub open spec fn lenient_load(coins: Coins, lines: Seq<Seq<char>>) -> Coins
    decreases lines.len(),
{
    if lines.len() == 0 {
        coins
    } else {
        lenient_load(lenient_line(coins, lines[0]), lines.drop_first())
    }
}

/// The outputs with what a line of four words says added; other lines are
/// passed over.
pub open spec fn strict_line(coins: Coins, line: Seq<char>) -> Result<Coins, WalletError> {
    let w = words_of(line);
    if w.len() != 4 {
        Ok(coins)
    } else {
        match (number_in(w[0], u64::MAX as nat), number_in(w[3], u32::MAX as nat)) {
            (None, _) => Err(WalletError::BadValue),
            (Some(v), n) => if !is_hex(w[1]) {
                Err(WalletError::BadKey)
            } else {
                match n {
                    None => Err(WalletError::BadVout),
                    Some(vout) => Ok(
                        coins.insert(
                            (w[2], vout as u32),
                            TxOutModel { value: v as u64, pubkey: unhex(w[1]) },
                        ),
                    ),
                }
            },
        }
    }
}

/// The outputs that an extended export spells out, up to the first line that
/// cannot be read.
pub open spec fn strict_load(coins: Coins, lines: Seq<Seq<char>>) -> Result<Coins, WalletError>
    decreases lines.len(),
{
    if lines.len() == 0 {
        Ok(coins)
    } else {
        match strict_line(coins, lines[0]) {
            Ok(next) => strict_load(next, lines.drop_first()),
            Err(e) => Err(e),
        }
    }
}

/// The number that a word names, or zero.
fn read_or_zero(s: &Vec<char>, max: u64) -> (r: u64)
    ensures
        r == number_or_zero(s@, max as nat),
        r <= max,
{
    match parse_number(s, max) {
        Some(v) => v,
        None => 0,
    }
}

fn put_lenient(coins: &mut UtxoSet, line: &Vec<char>)
    ensures
        final(coins)@ == lenient_line(old(coins)@, line@),
{
    let w: Vec<Vec<char>> = split_words(line);
    let ghost ws = char_lists(w@);
    if w.len() == 2 {
        assert(ws[0] == w@[0]@ && ws[1] == w@[1]@);
        match hex_bytes(&text_of(&w[1])) {
            Some(pk) => {
                let v: u64 = read_or_zero(&w[0], u64::MAX);
                let n: u32 = len_u32(coins.len());
                let name: String = String::new();
                assert(name@ =~= Seq::empty());
                coins.insert(name, n, v, pk);
            },
            None => {},
        }
    } else if w.len() == 4 {
        assert(ws[0] == w@[0]@ && ws[1] == w@[1]@ && ws[2] == w@[2]@ && ws[3] == w@[3]@);
        match hex_bytes(&text_of(&w[1])) {
            Some(pk) => {
                let v: u64 = read_or_zero(&w[0], u64::MAX);
                let n: u64 = read_or_zero(&w[3], 0xffff_ffff);
                coins.insert(text_of(&w[2]), n as u32, v, pk);
            },
            None => {},
        }
    }
}

/// Reads an export of either form leniently.
pub fn load_dump(raw: &str) -> (r: ChainState)
    ensures
        r@ == (StateModel {
            utxos: lenient_load(Map::empty(), lines_of(raw@)),
            ..empty_state(0)
        }),
{
    let lines: Vec<Vec<char>> = split_lines(&chars_of(raw));
    let ghost all = char_lists(lines@);
    let mut st: ChainState = ChainState::new(0);
    let mut i: usize = 0;
    assert(all.skip(0) =~= all);
    while i < lines.len()
        invariant
            i <= lines@.len(),
            all == char_lists(lines@),
            st@ == (StateModel { utxos: st@.utxos, ..empty_state(0) }),
            lenient_load(Map::empty(), all) == lenient_load(st@.utxos, all.skip(i as int)),
        decreases lines@.len() - i,
    {
        proof {
            assert(all.skip(i as int)[0] == lines@[i as int]@);
            assert(all.skip(i as int).drop_first() =~= all.skip(i + 1));
        }
        put_lenient(&mut st.utxos, &lines[i]);
        i = i + 1;
    }
    assert(all.skip(i as int) =~= Seq::empty());
    st
}

fn put_strict(coins: &mut UtxoSet, line: &Vec<char>) -> (r: Result<(), WalletError>)
    ensures
        match strict_line(old(coins)@, line@) {
            Ok(next) => r is Ok && final(coins)@ == next,
            Err(e) => r == Err::<(), WalletError>(e) && final(coins)@ == old(coins)@,
        },
{
    let w: Vec<Vec<char>> = split_words(line);
    let ghost ws = char_lists(w@);
    if w.len() != 4 {
        return Ok(());
    }
    assert(ws[0] == w@[0]@ && ws[1] == w@[1]@ && ws[2] == w@[2]@ && ws[3] == w@[3]@);
    let v: u64 = match parse_number(&w[0], u64::MAX) {
        Some(v) => v,
        None => {
            return Err(WalletError::BadValue);
        },
    };
    let pk: Vec<u8> = match hex_bytes(&text_of(&w[1])) {
        Some(b) => b,
        None => {
            return Err(WalletError::BadKey);
        },
    };
    match parse_number(&w[3], 0xffff_ffff) {
        Some(n) => {
            coins.insert(text_of(&w[2]), n as u32, v, pk);
            Ok(())
        },
        None => Err(WalletError::BadVout),
    }
}

/// Reads an extended export strictly.
pub fn load_extended_dump(raw: &str) -> (r: Result<ChainState, WalletError>)
    ensures
        match strict_load(Map::empty(), lines_of(raw@)) {
            Ok(coins) => r matches Ok(s) && s@ == (StateModel { utxos: coins, ..empty_state(0) }),
            Err(e) => r == Err::<ChainState, WalletError>(e),
        },
{
    let lines: Vec<Vec<char>> = split_lines(&chars_of(raw));
    let ghost all = char_lists(lines@);
    let mut st: ChainState = ChainState::new(0);
    let mut i: usize = 0;
    assert(all.skip(0) =~= all);
    assert(lines_of(raw@) == all);
    while i < lines.len()
        invariant
            i <= lines@.len(),
            all == char_lists(lines@),
            all == lines_of(raw@),
            st@ == (StateModel { utxos: st@.utxos, ..empty_state(0) }),
            strict_load(Map::empty(), all) == strict_load(st@.utxos, all.skip(i as int)),
        decreases lines@.len() - i,
    {
        proof {
            assert(all.skip(i as int)[0] == lines@[i as int]@);
            assert(all.skip(i as int).drop_first() =~= all.skip(i + 1));
        }
        match put_strict(&mut st.utxos, &lines[i]) {
            Ok(_) => {},
            Err(e) => {
                return Err(e);
            },
        }
        i = i + 1;
    }
    assert(all.skip(i as int) =~= Seq::empty());
    Ok(st)
}

/// The key that an address names; an address that is not hexadecimal names the
/// empty key.
pub open spec fn address_key(address: Seq<char>) -> Seq<u8> {
    if is_hex(address) {
        unhex(address)
    } else {
        Seq::empty()
    }
}

/// The number of outputs under an address in an export, and what they are worth.
pub fn balance_report(raw: &str, address: &str) -> (r: (usize, u128))
    ensures
        ({
            let mine = coins_under(
                lenient_load(Map::empty(), lines_of(raw@)),
                address_key(address@),
            );
            &&& r.0 == mine.dom().len()
            &&& r.1 == coin_total(mine)
        }),
{
    let st: ChainState = load_dump(raw);
    let pk: Vec<u8> = match hex_bytes(address) {
        Some(b) => b,
        None => Vec::new(),
    };
    assert(pk@ =~= address_key(address@));
    let total: u128 = st.balance_of(&pk);
    let list: Vec<Utxo> = st.utxos_of(&pk);
    proof {
        lemma_assoc_len(utxo_pairs(list@));
    }
    (list.len(), total)
}

// ---------------------------------------------------------------------------
// spending
// ---------------------------------------------------------------------------

/// An output that an export lists as ours.
#[derive(Debug)]
pub struct Owned {
    pub value: u64,
    pub txid: String,
    pub vout: u32,
}

/// The amount, the identifier and the index that an extended line gives.
pub open spec fn owned_in(w: Seq<Seq<char>>) -> Result<(u64, Seq<char>, u32), WalletError> {
    match (number_in(w[0], u64::MAX as nat), number_in(w[3], u32::MAX as nat)) {
        (None, _) => Err(WalletError::BadValue),
        (_, None) => Err(WalletError::BadVout),
        (Some(v), Some(n)) => Ok((v as u64, w[2], n as u32)),
    }
}

/// The output of the first extended line with our key.
pub open spec fn owned_first(lines: Seq<Seq<char>>, pk_hex: Seq<char>) -> Result<
    (u64, Seq<char>, u32),
    WalletError,
>
    decreases lines.len(),
{
    if lines.len() == 0 {
        Err(WalletError::NoOwnedUtxo)
    } else {
        let w = words_of(lines[0]);
        if w.len() == 4 && w[1] == pk_hex {
            owned_in(w)
        } else {
            owned_first(lines.drop_first(), pk_hex)
        }
    }
}

fn same_chars(a: &Vec<char>, b: &Vec<char>) -> (r: bool)
    ensures
        r == (a@ == b@),
{
    if a.len() != b.len() {
        return false;
    }
    let mut i: usize = 0;
    while i < a.len()
        invariant
            i <= a@.len(),
            a@.len() == b@.len(),
            forall|j: int| 0 <= j < i ==> a@[j] == b@[j],
        decreases a@.len() - i,
    {
        if a[i] != b[i] {
            return false;
        }
        i = i + 1;
    }
    assert(a@ =~= b@);
    true
}

/// The first output under our key in an extended export.
pub fn first_owned(raw: &str, pk_hex: &str) -> (r: Result<Owned, WalletError>)
    ensures
        match owned_first(lines_of(raw@), pk_hex@) {
            Ok((value, txid, vout)) => r matches Ok(o) && o.value == value && o.txid@ == txid
                && o.vout == vout,
            Err(e) => r == Err::<Owned, WalletError>(e),
        },
{
    let lines: Vec<Vec<char>> = split_lines(&chars_of(raw));
    let key: Vec<char> = chars_of(pk_hex);
    let ghost all = char_lists(lines@);
    let mut i: usize = 0;
    assert(all.skip(0) =~= all);
    while i < lines.len()
        invariant
            i <= lines@.len(),
            all == char_lists(lines@),
            all == lines_of(raw@),
            key@ == pk_hex@,
            owned_first(all, pk_hex@) == owned_first(all.skip(i as int), pk_hex@),
        decreases lines@.len() - i,
    {
        proof {
            assert(all.skip(i as int)[0] == lines@[i as int]@);
            assert(all.skip(i as int).drop_first() =~= all.skip(i + 1));
        }
        let w: Vec<Vec<char>> = split_words(&lines[i]);
        let ghost ws = char_lists(w@);
        if w.len() == 4 {
            assert(ws[0] == w@[0]@ && ws[1] == w@[1]@ && ws[2] == w@[2]@ && ws[3] == w@[3]@);
            if same_chars(&w[1], &key) {
                let value: u64 = match parse_number(&w[0], u64::MAX) {
                    Some(v) => v,
                    None => {
                        return Err(WalletError::BadValue);
                    },
                };
                let vout: u32 = match parse_number(&w[3], 0xffff_ffff) {
                    Some(n) => n as u32,
                    None => {
                        return Err(WalletError::BadVout);
                    },
                };
                return Ok(Owned { value, txid: text_of(&w[2]), vout });
            }
        }
        i = i + 1;
    }
    assert(all.skip(i as int) =~= Seq::empty());
    Err(WalletError::NoOwnedUtxo)
}

/// The unsigned transaction that spends one output whole to one key.
pub open spec fn spend_of(value: u64, txid: Seq<u8>, vout: u32, to: Seq<u8>) -> TxModel {
    TxModel {
        version: 1,
        inputs: seq![TxInModel { prev_txid: txid, vout, signature: Seq::empty() }],
        outputs: seq![TxOutModel { value, pubkey: to }],
        locktime: 0,
    }
}

/// Builds the unsigned transaction that spends an owned output whole.
pub fn build_spend(owned: &Owned, to: Vec<u8>) -> (r: Result<Transaction, WalletError>)
    ensures
        if is_hex(owned.txid@) && unhex(owned.txid@).len() == 32 {
            r matches Ok(t) && t@ == spend_of(owned.value, unhex(owned.txid@), owned.vout, to@)
        } else {
            r == Err::<Transaction, WalletError>(WalletError::BadTxid)
        },
{
    let id: Vec<u8> = match hex_bytes(&owned.txid) {
        Some(b) => b,
        None => {
            return Err(WalletError::BadTxid);
        },
    };
    if id.len() != 32 {
        return Err(WalletError::BadTxid);
    }
    let mut inputs: Vec<TxIn> = Vec::new();
    inputs.push(
        TxIn { prev_txid: to_array_32(&id), vout: owned.vout, signature: Vec::new() },
    );
    let mut outputs: Vec<TxOut> = Vec::new();
    outputs.push(TxOut { value: owned.value, pubkey: to });
    let t = Transaction { version: 1, inputs, outputs, locktime: 0 };
    proof {
        let want = spend_of(owned.value, unhex(owned.txid@), owned.vout, to@);
        assert(t.inputs@[0].signature@ =~= Seq::<u8>::empty());
        assert(t@.inputs =~= want.inputs);
        assert(t@.outputs =~= want.outputs);
    }
    Ok(t)
}

/// The transaction with a signature on its first input.
pub open spec fn signed_first(t: TxModel, signature: Seq<u8>) -> TxModel {
    TxModel {
        inputs: t.inputs.update(0, TxInModel { signature, ..t.inputs[0] }),
        ..t
    }
}

/// Puts a signature on the first input.
pub fn sign_first(tx: &mut Transaction, signature: Vec<u8>)
    requires
        old(tx)@.inputs.len() > 0,
    ensures
        final(tx)@ == signed_first(old(tx)@, signature@),
{
    let ghost was = tx@;
    let first = TxIn {
        prev_txid: tx.inputs[0].prev_txid,
        vout: tx.inputs[0].vout,
        signature,
    };
    tx.inputs[0] = first;
    assert(tx@.inputs =~= signed_first(was, signature@).inputs);
}

/// Whether a freshly signed spend may be handed out: its signature was checked
/// and holds.
pub fn self_check(outcome: Result<bool, PqBitError>) -> (r: bool)
    ensures
        r == (outcome == Ok::<bool, PqBitError>(true)),
{
    match outcome {
        Ok(b) => b,
        Err(_) => false,
    }
}

// ---------------------------------------------------------------------------
// transactions as text
// ---------------------------------------------------------------------------

/// `s` without the white space in front of it.
pub open spec fn trim_start(s: Seq<char>) -> Seq<char>
    decreases s.len(),
{
    if s.len() > 0 && is_white(s[0]) {
        trim_start(s.drop_first())
    } else {
        s
    }
}

/// `s` without the white space behind it.
pub open spec fn trim_end(s: Seq<char>) -> Seq<char>
    decreases s.len(),
{
    if s.len() > 0 && is_white(s.last()) {
        trim_end(s.drop_last())
    } else {
        s
    }
}

/// A text without the white space around it.
pub fn trim_text(s: &str) -> (r: String)
    ensures
        r@ == trim_end(trim_start(s@)),
{
    let c: Vec<char> = chars_of(s);
    let mut i: usize = 0;
    assert(c@.skip(0) =~= c@);
    while i < c.len() && white(c[i])
        invariant
            i <= c@.len(),
            c@ == s@,
            trim_start(s@) == trim_start(c@.skip(i as int)),
        decreases c@.len() - i,
    {
        assert(c@.skip(i as int)[0] == c@[i as int]);
        assert(c@.skip(i as int).drop_first() =~= c@.skip(i + 1));
        i = i + 1;
    }
    proof {
        if i < c@.len() {
            assert(c@.skip(i as int)[0] == c@[i as int]);
        }
    }
    let ghost t = c@.skip(i as int);
    assert(trim_start(s@) == t);
    let mut rest: Vec<char> = Vec::new();
    let mut k: usize = i;
    assert(rest@ =~= c@.subrange(i as int, i as int));
    while k < c.len()
        invariant
            i <= k <= c@.len(),
            rest@ == c@.subrange(i as int, k as int),
        decreases c@.len() - k,
    {
        rest.push(c[k]);
        k = k + 1;
        assert(rest@ =~= c@.subrange(i as int, k as int));
    }
    assert(rest@ =~= t);
    while rest.len() > 0 && white(rest[rest.len() - 1])
        invariant
            trim_end(t) == trim_end(rest@),
        decreases rest@.len(),
    {
        let ghost was = rest@;
        rest.pop();
        assert(rest@ =~= was.drop_last());
    }
    text_of(&rest)
}

/// A transaction as hexadecimal text of its encoding.
pub fn tx_to_hex(tx: &Transaction) -> (r: String)
    ensures
        r@ == hex_of(tx_bytes()(tx@)),
{
    hex_text(&encode_tx(tx))
}

/// Why a text is no transaction.
#[derive(Debug)]
pub enum TxTextError {
    /// It is not hexadecimal.
    NotHex,
    /// Its bytes are no transaction.
    Wire(NetError),
}

/// Reads a transaction from hexadecimal text, with white space around it or
/// not.
pub fn tx_from_hex(text: &str) -> (r: Result<Transaction, TxTextError>)
    ensures
        ({
            let h = trim_end(trim_start(text@));
            if !is_hex(h) {
                r == Err::<Transaction, TxTextError>(TxTextError::NotHex)
            } else {
                match payload(tx(), unhex(h)) {
                    Ok(v) => r matches Ok(t) && t@ == v,
                    Err(e) => r == Err::<Transaction, TxTextError>(TxTextError::Wire(e.net())),
                }
            }
        }),
{
    let h: String = trim_text(text);
    match hex_bytes(&h) {
        Some(wire) => match decode_tx(&wire) {
            Ok(t) => Ok(t),
            Err(e) => Err(TxTextError::Wire(e)),
        },
        None => Err(TxTextError::NotHex),
    }
}

/// The bytes that a hexadecimal text names, if it is one.
pub fn bytes_from_hex(text: &str) -> (r: Option<Vec<u8>>)
    ensures
        match r {
            Some(b) => is_hex(text@) && b@ == unhex(text@),
            None => !is_hex(text@),
        },
{
    hex_bytes(text)
}

/// A byte string as hexadecimal text.
pub fn bytes_to_hex(data: &[u8]) -> (r: String)
    ensures
        r@ == hex_of(data@),
{
    hex_text(data)
}

/// The block to mine on a tip when nothing is pooled: a coinbase alone.
pub fn coinbase_block(chain: &ChainState, pubkey: Vec<u8>, reward: u64, now: u64) -> (r: Block)
    requires
        chain@.tip_height < u64::MAX,
    ensures
        r@ == (BlockModel {
            height: (chain@.tip_height + 1) as u64,
            prev_hash: chain@.tip_hash,
            timestamp: now,
            transactions: seq![coinbase_of(pubkey@, reward, (chain@.tip_height + 1) as u64)],
            nonce: 0,
        }),
{
    let height: u64 = chain.tip_height + 1;
    let mut transactions: Vec<Transaction> = Vec::new();
    transactions.push(coinbase(pubkey, reward, height));
    assert(crate::tx::txs_of(transactions@) =~= seq![coinbase_of(pubkey@, reward, height)]);
    Block { height, prev_hash: copy_text(&chain.tip_hash), timestamp: now, transactions, nonce: 0 }
}

} // verus!
