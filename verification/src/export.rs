//! What holds of exports and of the wallet's spends: what was exported loads
//! back, and a spend that was built and signed for an output is accepted.
use vstd::prelude::*;

use crate::assoc::{
    assoc_map, has_key, keys_distinct, lemma_assoc_at, lemma_assoc_contains, lemma_assoc_len,
};
use crate::chain::{coins_under, input_sum, inputs_fault, output_sum, spend_verdict, Coins};
use crate::codec::{payload, tx, tx_bytes};
use crate::hashing::{hex_of, is_hex, lemma_hex_no_white, lemma_hex_round_trip, unhex};
use crate::roundtrip::{law_payload_round_trip, law_tx_round_trip, tx_fits};
use crate::sig::ClaimModel;
use crate::text::{
    dec_chars, is_white, lemma_dec_round_trip, lemma_line_opens, lemma_word_opens, line_cut,
    lines_of, number_in, strip_cr, word_cut, words_of,
};
use crate::tx::{
    law_sighash_ignores_signatures, tx_sighash, txid_of, with_signatures, TxInModel, TxModel,
    TxOutModel,
};
use crate::utxo::{coin_total, lemma_total_insert, OutputKey};
use crate::wallet::{
    dump_line, dump_text, is_dump, lenient_line, lenient_load, signed_first, spend_of, strict_line,
    strict_load, trim_end, trim_start, WalletError,
};
use crate::wire::WireFault;

verus! {

/// An output with its name.
type Pair = (OutputKey, TxOutModel);

/// Whether a text can stand as one word of a line.
pub open spec fn is_word(s: Seq<char>) -> bool {
    s.len() > 0 && forall|i: int| 0 <= i < s.len() ==> !is_white(#[trigger] s[i])
}

/// Whether an output has a key and an identifier that show in a line.
pub open spec fn shows(p: (OutputKey, TxOutModel)) -> bool {
    p.1.pubkey.len() > 0 && is_word(p.0.0)
}

proof fn lemma_hex_is_word(data: Seq<u8>)
    requires
        data.len() > 0,
    ensures
        is_word(hex_of(data)),
{
    lemma_hex_no_white(data);
}

proof fn lemma_dec_is_word(n: nat)
    ensures
        is_word(dec_chars(n)),
{
    lemma_dec_round_trip(n);
}

/// A word behind a space: the words so far end at the space.
proof fn lemma_next_word(a: Seq<char>, done: Seq<Seq<char>>, open: Seq<char>, w: Seq<char>)
    requires
        word_cut(a) == (done, open),
        open.len() > 0,
        is_word(w),
    ensures
        word_cut(a + seq![' '] + w) == (done.push(open), w),
{
    let b = a + seq![' '];
    assert(b.drop_last() =~= a);
    assert(b.last() == ' ');
    assert(word_cut(b) == (done.push(open), Seq::<char>::empty()));
    lemma_word_opens(b, w);
}

/// The words of a line of an export.
proof fn lemma_dump_words(p: Pair, extended: bool)
    requires
        p.1.pubkey.len() > 0,
        extended ==> is_word(p.0.0),
    ensures
        words_of(dump_line(p, extended)) == (if extended {
            seq![
                dec_chars(p.1.value as nat),
                hex_of(p.1.pubkey),
                p.0.0,
                dec_chars(p.0.1 as nat),
            ]
        } else {
            seq![dec_chars(p.1.value as nat), hex_of(p.1.pubkey)]
        }),
{
    let v = dec_chars(p.1.value as nat);
    let k = hex_of(p.1.pubkey);
    let n = dec_chars(p.0.1 as nat);
    lemma_dec_is_word(p.1.value as nat);
    lemma_dec_is_word(p.0.1 as nat);
    lemma_hex_is_word(p.1.pubkey);
    let none = Seq::<Seq<char>>::empty();
    lemma_word_opens(Seq::empty(), v);
    assert(Seq::empty() + v =~= v);
    lemma_next_word(v, none, v, k);
    let short = v + seq![' '] + k;
    if extended {
        lemma_next_word(short, none.push(v), k, p.0.0);
        let longer = short + seq![' '] + p.0.0;
        lemma_next_word(longer, none.push(v).push(k), p.0.0, n);
        assert(words_of(dump_line(p, extended)) =~= seq![v, k, p.0.0, n]);
    } else {
        assert(words_of(dump_line(p, extended)) =~= seq![v, k]);
    }
}

/// A word or a space is no line feed, and a line that ends in a word keeps its
/// end.
proof fn lemma_dump_line_is_line(p: Pair, extended: bool)
    requires
        p.1.pubkey.len() > 0,
        extended ==> is_word(p.0.0),
    ensures
        forall|i: int|
            0 <= i < dump_line(p, extended).len() ==> #[trigger] dump_line(p, extended)[i] != '\n',
        strip_cr(dump_line(p, extended)) == dump_line(p, extended),
{
    let v = dec_chars(p.1.value as nat);
    let k = hex_of(p.1.pubkey);
    let n = dec_chars(p.0.1 as nat);
    lemma_dec_is_word(p.1.value as nat);
    lemma_dec_is_word(p.0.1 as nat);
    lemma_hex_is_word(p.1.pubkey);
    let line = dump_line(p, extended);
    let a = v.len() as int;
    let b = a + 1 + k.len();
    let c = b + 1 + p.0.0.len();
    assert forall|i: int| 0 <= i < line.len() implies #[trigger] line[i] != '\n' by {
        if i < a {
            assert(line[i] == v[i]);
        } else if a < i < b {
            assert(line[i] == k[i - a - 1]);
        } else if extended && b < i < c {
            assert(line[i] == p.0.0[i - b - 1]);
        } else if extended && c < i {
            assert(line[i] == n[i - c - 1]);
        }
    }
    if extended {
        assert(line.last() == n[n.len() - 1]);
    } else {
        assert(line.last() == k[k.len() - 1]);
    }
}

proof fn lemma_dump_lines(list: Seq<Pair>, extended: bool)
    requires
        forall|i: int| 0 <= i < list.len() ==> (#[trigger] list[i]).1.pubkey.len() > 0,
        extended ==> forall|i: int| 0 <= i < list.len() ==> is_word((#[trigger] list[i]).0.0),
    ensures
        line_cut(dump_text(list, extended)) == (
            Seq::new(list.len(), |i: int| dump_line(list[i], extended)),
            Seq::<char>::empty(),
        ),
    decreases list.len(),
{
    let want = Seq::new(list.len(), |i: int| dump_line(list[i], extended));
    if list.len() == 0 {
        assert(want =~= Seq::empty());
    } else {
        let front = list.drop_last();
        let a = dump_text(front, extended);
        let last = list[list.len() - 1];
        let line = dump_line(last, extended);
        let s = dump_text(list, extended);
        assert forall|i: int| 0 <= i < front.len() implies (#[trigger] front[i]).1.pubkey.len()
            > 0 by {
            assert(front[i] == list[i]);
        }
        if extended {
            assert forall|i: int| 0 <= i < front.len() implies is_word((#[trigger] front[i]).0.0) by {
                assert(front[i] == list[i]);
            }
        }
        lemma_dump_lines(front, extended);
        lemma_dump_line_is_line(last, extended);
        lemma_line_opens(a, line);
        assert(s.drop_last() =~= a + line);
        assert(s.last() == '\n');
        assert(line_cut(s).0 =~= want);
    }
}

proof fn lemma_number_reads_back(v: nat, max: nat)
    requires
        v <= max,
    ensures
        number_in(dec_chars(v), max) == Some(v),
{
    lemma_dec_round_trip(v);
}

/// What an extended line says.
proof fn lemma_extended_line(coins: Coins, p: Pair)
    requires
        shows(p),
    ensures
        strict_line(coins, dump_line(p, true)) == Ok::<Coins, WalletError>(
            coins.insert(p.0, p.1),
        ),
        lenient_line(coins, dump_line(p, true)) == coins.insert(p.0, p.1),
{
    lemma_dump_words(p, true);
    lemma_number_reads_back(p.1.value as nat, u64::MAX as nat);
    lemma_number_reads_back(p.0.1 as nat, u32::MAX as nat);
    lemma_hex_round_trip(p.1.pubkey);
}

proof fn lemma_extended_loads(list: Seq<Pair>, n: int)
    requires
        keys_distinct(list),
        0 <= n <= list.len(),
        forall|i: int| 0 <= i < list.len() ==> shows(#[trigger] list[i]),
    ensures
        ({
            let lines = Seq::new(list.len(), |i: int| dump_line(list[i], true));
            let start = assoc_map(list.take(n));
            &&& strict_load(start, lines.skip(n)) == Ok::<Coins, WalletError>(assoc_map(list))
            &&& lenient_load(start, lines.skip(n)) == assoc_map(list)
        }),
    decreases list.len() - n,
{
    let lines = Seq::new(list.len(), |i: int| dump_line(list[i], true));
    let rest = lines.skip(n);
    if n < list.len() {
        lemma_extended_loads(list, n + 1);
        assert(rest[0] == dump_line(list[n], true));
        assert(rest.drop_first() =~= lines.skip(n + 1));
        assert(list.take(n + 1).drop_last() =~= list.take(n));
        assert(list.take(n + 1).last() == list[n]);
        assert(shows(list[n]));
        lemma_extended_line(assoc_map(list.take(n)), list[n]);
    } else {
        assert(list.take(n) =~= list);
        assert(rest =~= Seq::empty());
    }
}

/// An extended export loads back as the outputs that it was made from, read
/// strictly or leniently, if every output has a key and an identifier that
/// shows.
pub proof fn law_extended_dump_loads_back(text: Seq<char>, coins: Coins)
    requires
        is_dump(text, coins, true),
        forall|k: OutputKey| #[trigger] coins.contains_key(k) ==> shows((k, coins[k])),
    ensures
        strict_load(Map::empty(), lines_of(text)) == Ok::<Coins, WalletError>(coins),
        lenient_load(Map::empty(), lines_of(text)) == coins,
{
    let list = choose|list: Seq<Pair>|
        keys_distinct(list) && assoc_map(list) == coins && text == #[trigger] dump_text(
            list,
            true,
        );
    assert forall|i: int| 0 <= i < list.len() implies shows(#[trigger] list[i]) by {
        lemma_assoc_at(list, i);
    }
    lemma_dump_lines(list, true);
    let lines = Seq::new(list.len(), |i: int| dump_line(list[i], true));
    lemma_extended_loads(list, 0);
    assert(list.take(0) =~= Seq::empty());
    assert(lines.skip(0) =~= lines);
}

// ---------------------------------------------------------------------------
// balances
// ---------------------------------------------------------------------------

/// What the outputs of a list are worth under a key.
pub open spec fn list_balance(list: Seq<(OutputKey, TxOutModel)>, pubkey: Seq<u8>) -> nat
    decreases list.len(),
{
    if list.len() == 0 {
        0
    } else {
        list_balance(list.drop_last(), pubkey) + if list.last().1.pubkey == pubkey {
            list.last().1.value as nat
        } else {
            0
        }
    }
}

proof fn lemma_list_balance(list: Seq<Pair>, pubkey: Seq<u8>)
    requires
        keys_distinct(list),
    ensures
        coins_under(assoc_map(list), pubkey).dom().finite(),
        coin_total(coins_under(assoc_map(list), pubkey)) == list_balance(list, pubkey),
    decreases list.len(),
{
    if list.len() == 0 {
        assert(coins_under(assoc_map(list), pubkey) =~= Map::empty());
    } else {
        let front = list.drop_last();
        let p = list.last();
        let m = assoc_map(front);
        let before = coins_under(m, pubkey);
        let after = coins_under(m.insert(p.0, p.1), pubkey);
        assert(keys_distinct(front));
        lemma_list_balance(front, pubkey);
        lemma_assoc_contains(front, p.0);
        assert(!has_key(front, p.0)) by {
            if has_key(front, p.0) {
                let j = choose|j: int| 0 <= j < front.len() && (#[trigger] front[j]).0 == p.0;
                assert(list[j].0 != list[list.len() - 1].0);
            }
        }
        if p.1.pubkey == pubkey {
            assert(after =~= before.insert(p.0, p.1));
            lemma_total_insert(before, p.0, p.1);
            assert(before.remove(p.0) =~= before);
        } else {
            assert(after =~= before);
        }
    }
}

/// The outputs of a list, named by their position instead.
pub open spec fn numbered(list: Seq<(OutputKey, TxOutModel)>) -> Seq<(OutputKey, TxOutModel)> {
    Seq::new(list.len(), |i: int| ((Seq::<char>::empty(), i as u32), list[i].1))
}

proof fn lemma_short_line(coins: Coins, p: Pair)
    requires
        p.1.pubkey.len() > 0,
    ensures
        lenient_line(coins, dump_line(p, false)) == coins.insert(
            (Seq::<char>::empty(), (coins.dom().len() % 0x1_0000_0000) as u32),
            p.1,
        ),
{
    lemma_dump_words(p, false);
    lemma_number_reads_back(p.1.value as nat, u64::MAX as nat);
    lemma_hex_round_trip(p.1.pubkey);
}

proof fn lemma_numbered_distinct(list: Seq<Pair>)
    requires
        list.len() <= 0x1_0000_0000,
    ensures
        keys_distinct(numbered(list)),
{
    let n = numbered(list);
    assert forall|i: int, j: int| 0 <= i < j < n.len() implies (#[trigger] n[i]).0 != (
    #[trigger] n[j]).0 by {
        assert(n[i].0.1 == i as u32 && n[j].0.1 == j as u32);
    }
}

proof fn lemma_short_loads(list: Seq<Pair>, n: int)
    requires
        0 <= n <= list.len() <= 0x1_0000_0000,
        forall|i: int| 0 <= i < list.len() ==> (#[trigger] list[i]).1.pubkey.len() > 0,
    ensures
        ({
            let lines = Seq::new(list.len(), |i: int| dump_line(list[i], false));
            lenient_load(assoc_map(numbered(list).take(n)), lines.skip(n)) == assoc_map(
                numbered(list),
            )
        }),
    decreases list.len() - n,
{
    let lines = Seq::new(list.len(), |i: int| dump_line(list[i], false));
    let rest = lines.skip(n);
    let named = numbered(list);
    if n < list.len() {
        lemma_short_loads(list, n + 1);
        let front = named.take(n);
        assert(rest[0] == dump_line(list[n], false));
        assert(rest.drop_first() =~= lines.skip(n + 1));
        assert(named.take(n + 1).drop_last() =~= front);
        assert(named.take(n + 1).last() == named[n]);
        lemma_numbered_distinct(list);
        assert(keys_distinct(front));
        lemma_assoc_len(front);
        lemma_short_line(assoc_map(front), list[n]);
    } else {
        assert(named.take(n) =~= named);
        assert(rest =~= Seq::empty());
    }
}

proof fn lemma_numbered_balance(list: Seq<Pair>, pubkey: Seq<u8>, n: int)
    requires
        0 <= n <= list.len(),
    ensures
        list_balance(numbered(list).take(n), pubkey) == list_balance(list.take(n), pubkey),
    decreases n,
{
    if n > 0 {
        lemma_numbered_balance(list, pubkey, n - 1);
        assert(numbered(list).take(n).drop_last() =~= numbered(list).take(n - 1));
        assert(list.take(n).drop_last() =~= list.take(n - 1));
        assert(numbered(list).take(n).last() == numbered(list)[n - 1]);
        assert(list.take(n).last() == list[n - 1]);
    }
}

/// A short export keeps every balance: what it shows under a key is what the
/// outputs under the key are worth.
pub proof fn law_short_dump_keeps_balances(text: Seq<char>, coins: Coins, pubkey: Seq<u8>)
    requires
        is_dump(text, coins, false),
        coins.dom().len() <= 0x1_0000_0000,
        forall|k: OutputKey| #[trigger] coins.contains_key(k) ==> coins[k].pubkey.len() > 0,
    ensures
        coin_total(coins_under(lenient_load(Map::empty(), lines_of(text)), pubkey)) == coin_total(
            coins_under(coins, pubkey),
        ),
{
    let list = choose|list: Seq<Pair>|
        keys_distinct(list) && assoc_map(list) == coins && text == #[trigger] dump_text(
            list,
            false,
        );
    lemma_assoc_len(list);
    assert forall|i: int| 0 <= i < list.len() implies (#[trigger] list[i]).1.pubkey.len() > 0 by {
        lemma_assoc_at(list, i);
    }
    lemma_dump_lines(list, false);
    let lines = Seq::new(list.len(), |i: int| dump_line(list[i], false));
    lemma_short_loads(list, 0);
    assert(numbered(list).take(0) =~= Seq::empty());
    assert(lines.skip(0) =~= lines);
    lemma_numbered_distinct(list);
    lemma_list_balance(list, pubkey);
    lemma_list_balance(numbered(list), pubkey);
    lemma_numbered_balance(list, pubkey, list.len() as int);
    assert(numbered(list).take(list.len() as int) =~= numbered(list));
    assert(list.take(list.len() as int) =~= list);
}

// ---------------------------------------------------------------------------
// spends
// ---------------------------------------------------------------------------

/// Signing changes neither the digest that is signed nor the identifier.
pub proof fn law_signing_keeps_sighash(t: TxModel, signature: Seq<u8>)
    requires
        t.inputs.len() > 0,
    ensures
        tx_sighash(signed_first(t, signature)) == tx_sighash(t),
        txid_of(signed_first(t, signature)) == txid_of(t),
{
    let sigs = |i: int|
        if i == 0 {
            signature
        } else {
            t.inputs[i].signature
        };
    law_sighash_ignores_signatures(t, sigs);
    let s = signed_first(t, signature);
    let w = with_signatures(t, sigs);
    assert forall|i: int| 0 <= i < t.inputs.len() implies s.inputs[i] == w.inputs[i] by {}
    assert(s.inputs =~= w.inputs);
}

/// A spend that was built for an unspent output and signed under its key is
/// accepted.
pub proof fn law_built_spend_is_accepted(
    coins: Coins,
    id: Seq<u8>,
    vout: u32,
    to: Seq<u8>,
    signature: Seq<u8>,
    verified: Set<ClaimModel>,
)
    requires
        coins.contains_key((hex_of(id), vout)),
        verified.contains(
            (ClaimModel {
                pubkey: coins[(hex_of(id), vout)].pubkey,
                message: tx_sighash(spend_of(coins[(hex_of(id), vout)].value, id, vout, to)),
                signature,
            }),
        ),
    ensures
        spend_verdict(
            coins,
            signed_first(spend_of(coins[(hex_of(id), vout)].value, id, vout, to), signature),
            verified,
        ) is Ok,
{
    let coin = coins[(hex_of(id), vout)];
    let t = spend_of(coin.value, id, vout, to);
    let s = signed_first(t, signature);
    law_signing_keeps_sighash(t, signature);
    reveal_with_fuel(inputs_fault, 2);
    reveal_with_fuel(input_sum, 2);
    reveal_with_fuel(output_sum, 2);
    assert(s.inputs[0] == (TxInModel { prev_txid: id, vout, signature }));
    assert(s.inputs.drop_first() =~= Seq::empty());
    assert(s.inputs.drop_last() =~= Seq::empty());
    assert(s.outputs.drop_last() =~= Seq::empty());
    assert(input_sum(coins, s.inputs) == coin.value);
    assert(output_sum(s.outputs) == coin.value);
}

proof fn lemma_trim_words(s: Seq<char>)
    requires
        forall|i: int| 0 <= i < s.len() ==> !is_white(#[trigger] s[i]),
    ensures
        trim_end(trim_start(s)) == s,
{
    if s.len() > 0 {
        assert(!is_white(s[0]));
        assert(!is_white(s[s.len() - 1]));
    }
}

/// A transaction within the wire's caps reads back from its hexadecimal text.
pub proof fn law_tx_text_round_trip(t: TxModel)
    requires
        tx_fits(t),
    ensures
        is_hex(trim_end(trim_start(hex_of(tx_bytes()(t))))),
        payload(tx(), unhex(trim_end(trim_start(hex_of(tx_bytes()(t)))))) == Ok::<
            TxModel,
            WireFault,
        >(t),
{
    let e = tx_bytes()(t);
    lemma_hex_no_white(e);
    lemma_trim_words(hex_of(e));
    lemma_hex_round_trip(e);
    law_tx_round_trip(t);
    law_payload_round_trip(tx(), e, t);
}

} // verus!
