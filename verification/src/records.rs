//! What the lines of the stored book and of an export say, and what a wallet
//! makes of them.
use vstd::prelude::*;
use vstd::utf8::encode_utf8;

use crate::addrbook::{
    first_space, load_line, load_lines, peer_line, sane, stored_peer, stored_text,
};
use crate::chain::Coins;
use crate::hashing::{hex_of, is_hex, lemma_hex_round_trip, unhex};
use crate::targets::{ascending, bytes_before, cut, first_of, text_before};
use crate::text::{dec_chars, is_white, number_in, words_of};
use crate::tx::{TxModel, TxOutModel};
use crate::utxo::OutputKey;
use crate::wallet::{
    address_key, dump_line, dump_text, lenient_line, lenient_load, owned_first, signed_first,
    spend_of, strict_line, strict_load, WalletError,
};

verus! {

// ---------------------------------------------------------------------------
// the stored book
// ---------------------------------------------------------------------------

/// An address is fit for the book exactly if it is not empty, takes at most 64
/// bytes, holds no white space, and holds a colon.
pub proof fn law_sane_address(a: Seq<char>)
    ensures
        sane(a) <==> 0 < a.len() && encode_utf8(a).len() <= 64 && a.contains(':') && !exists|i: int|
            0 <= i < a.len() && is_white(#[trigger] a[i]),
{
    if sane(a) {
        assert forall|i: int| 0 <= i < a.len() implies !is_white(#[trigger] a[i]) by {}
    }
    if !exists|i: int| 0 <= i < a.len() && is_white(#[trigger] a[i]) {
        assert forall|i: int| 0 <= i < a.len() implies !is_white(#[trigger] a[i]) by {}
    }
}

proof fn lemma_first_space(a: Seq<char>, b: Seq<char>)
    requires
        forall|i: int| 0 <= i < a.len() ==> #[trigger] a[i] != ' ',
    ensures
        first_space(a) == a.len(),
        first_space(a + seq![' '] + b) == a.len(),
    decreases a.len(),
{
    let s = a + seq![' '] + b;
    if a.len() > 0 {
        let t = a.drop_first();
        assert forall|i: int| 0 <= i < t.len() implies #[trigger] t[i] != ' ' by {
            assert(a[i + 1] != ' ');
        }
        lemma_first_space(t, b);
        assert(s[0] == a[0]);
        assert(s.drop_first() =~= t + seq![' '] + b);
    }
}

/// A line of the stored book is a number, one space, and an address: it says so
/// exactly if the part before the first space is a number and all the rest is
/// fit to be an address. A line without a space says nothing.
pub proof fn law_stored_line_is_read(num: Seq<char>, addr: Seq<char>)
    requires
        forall|i: int| 0 <= i < num.len() ==> #[trigger] num[i] != ' ',
    ensures
        stored_peer(num) is None,
        match number_in(num, u64::MAX as nat) {
            Some(v) if sane(addr) => stored_peer(num + seq![' '] + addr) == Some((addr, v as u64)),
            _ => stored_peer(num + seq![' '] + addr) is None,
        },
{
    lemma_first_space(num, addr);
    let line = num + seq![' '] + addr;
    assert(line.take(num.len() as int) =~= num);
    assert(line.skip(num.len() as int + 1) =~= addr);
}

/// Whatever is in a loaded book, a line of the text put it there, with its
/// time.
pub proof fn law_loaded_address_was_stored(lines: Seq<Seq<char>>, a: Seq<char>) -> (i: int)
    requires
        load_lines(lines).contains_key(a),
    ensures
        0 <= i < lines.len(),
        stored_peer(lines[i]) == Some((a, load_lines(lines)[a])),
    decreases lines.len(),
{
    if lines.len() > 0 {
        let front = lines.drop_last();
        let was = load_lines(front);
        if was.contains_key(a) && load_lines(lines)[a] == was[a] {
            law_loaded_address_was_stored(front, a)
        } else {
            lines.len() - 1
        }
    } else {
        0
    }
}

proof fn lemma_load_bound(lines: Seq<Seq<char>>)
    ensures
        load_lines(lines).dom().finite(),
        load_lines(lines).dom().len() <= lines.len(),
    decreases lines.len(),
{
    if lines.len() > 0 {
        lemma_load_bound(lines.drop_last());
    }
}

/// Every address that a line says is loaded, with the time of the last line
/// that says it, if there are no more lines than the book has room for.
pub proof fn law_stored_address_is_loaded(lines: Seq<Seq<char>>, i: int)
    requires
        lines.len() <= 512,
        0 <= i < lines.len(),
        stored_peer(lines[i]) is Some,
        forall|j: int|
            i < j < lines.len() ==> !(stored_peer(#[trigger] lines[j]) matches Some(p) && p.0
                == (stored_peer(lines[i])->0).0),
    ensures
        load_lines(lines).contains_key((stored_peer(lines[i])->0).0),
        load_lines(lines)[(stored_peer(lines[i])->0).0] == (stored_peer(lines[i])->0).1,
    decreases lines.len(),
{
    let front = lines.drop_last();
    lemma_load_bound(front);
    if i < front.len() {
        assert(front[i] == lines[i]);
        assert forall|j: int| i < j < front.len() implies !(stored_peer(
            #[trigger] front[j],
        ) matches Some(p) && p.0 == (stored_peer(front[i])->0).0) by {
            assert(front[j] == lines[j]);
        }
        law_stored_address_is_loaded(front, i);
        assert(lines[lines.len() - 1] == lines.last());
    }
}

/// A full book takes nothing more from the text, and a line that says nothing
/// is skipped.
pub proof fn law_full_book_stops_loading(seen: Map<Seq<char>, u64>, line: Seq<char>)
    ensures
        seen.dom().len() >= 512 || stored_peer(line) is None ==> load_line(seen, line) == seen,
{
}

/// The stored text is one line for every address, in order: its time in
/// decimal, a space, the address and a line feed.
pub proof fn law_stored_text_layout(list: Seq<(Seq<char>, u64)>)
    ensures
        stored_text(list) == list.map_values(
            |p: (Seq<char>, u64)| dec_chars(p.1 as nat) + seq![' '] + p.0 + seq!['\n'],
        ).flatten(),
    decreases list.len(),
{
    let f = |p: (Seq<char>, u64)| dec_chars(p.1 as nat) + seq![' '] + p.0 + seq!['\n'];
    if list.len() > 0 {
        let front = list.drop_last();
        law_stored_text_layout(front);
        assert(list.map_values(f) =~= front.map_values(f).push(f(list.last())));
        front.map_values(f).lemma_flatten_push(f(list.last()));
        assert(stored_text(front) + peer_line(list.last()) + seq!['\n'] =~= stored_text(front) + f(
            list.last(),
        ));
    } else {
        assert(list.map_values(f) =~= Seq::empty());
    }
}

// ---------------------------------------------------------------------------
// exports
// ---------------------------------------------------------------------------

/// An export is one line for every output, in order: the amount in decimal and
/// the key in hexadecimal, and in an extended one also the identifier and the
/// index in decimal, with a space between each two of them and a line feed
/// behind the last.
pub proof fn law_export_layout(list: Seq<(OutputKey, TxOutModel)>)
    ensures
        dump_text(list, false) == list.map_values(
            |p: (OutputKey, TxOutModel)|
                dec_chars(p.1.value as nat) + seq![' '] + hex_of(p.1.pubkey) + seq!['\n'],
        ).flatten(),
        dump_text(list, true) == list.map_values(
            |p: (OutputKey, TxOutModel)|
                dec_chars(p.1.value as nat) + seq![' '] + hex_of(p.1.pubkey) + seq![' '] + p.0.0
                    + seq![' '] + dec_chars(p.0.1 as nat) + seq!['\n'],
        ).flatten(),
    decreases list.len(),
{
    let f = |p: (OutputKey, TxOutModel)|
        dec_chars(p.1.value as nat) + seq![' '] + hex_of(p.1.pubkey) + seq!['\n'];
    let g = |p: (OutputKey, TxOutModel)|
        dec_chars(p.1.value as nat) + seq![' '] + hex_of(p.1.pubkey) + seq![' '] + p.0.0 + seq![' ']
            + dec_chars(p.0.1 as nat) + seq!['\n'];
    if list.len() > 0 {
        let front = list.drop_last();
        let last = list.last();
        law_export_layout(front);
        assert(list.map_values(f) =~= front.map_values(f).push(f(last)));
        front.map_values(f).lemma_flatten_push(f(last));
        assert(list.map_values(g) =~= front.map_values(g).push(g(last)));
        front.map_values(g).lemma_flatten_push(g(last));
        assert(dump_text(front, false) + dump_line(last, false) + seq!['\n'] =~= dump_text(
            front,
            false,
        ) + f(last));
        assert(dump_text(front, true) + dump_line(last, true) + seq!['\n'] =~= dump_text(
            front,
            true,
        ) + g(last));
    } else {
        assert(list.map_values(f) =~= Seq::empty());
        assert(list.map_values(g) =~= Seq::empty());
    }
}

/// The amount that a word shows to a lenient reader: zero if it is no number.
pub open spec fn shown_amount(w: Seq<char>, max: nat) -> nat {
    if number_in(w, max) is Some {
        number_in(w, max)->0
    } else {
        0
    }
}

/// How an export is read leniently: a line of two words or of four with a
/// hexadecimal key gives an output, any other line gives nothing, and lines are
/// read in turn.
pub proof fn law_lenient_reading(coins: Coins, line: Seq<char>, key: Seq<u8>)
    ensures
        ({
            let w = words_of(line);
            let got = lenient_line(coins, line);
            &&& w.len() == 2 && is_hex(w[1]) && unhex(w[1]) == key ==> got == coins.insert(
                (Seq::empty(), (coins.dom().len() % 0x1_0000_0000) as u32),
                TxOutModel { value: shown_amount(w[0], u64::MAX as nat) as u64, pubkey: key },
            )
            &&& w.len() == 4 && is_hex(w[1]) && unhex(w[1]) == key ==> got == coins.insert(
                (w[2], shown_amount(w[3], u32::MAX as nat) as u32),
                TxOutModel { value: shown_amount(w[0], u64::MAX as nat) as u64, pubkey: key },
            )
            &&& w.len() != 2 && w.len() != 4 ==> got == coins
            &&& w.len() >= 2 && !is_hex(w[1]) ==> got == coins
        }),
{
}

/// Reading two lists of lines one after the other is reading them joined.
pub proof fn law_lenient_reading_goes_on(
    coins: Coins,
    a: Seq<Seq<char>>,
    line: Seq<char>,
)
    ensures
        lenient_load(coins, Seq::empty()) == coins,
        lenient_load(coins, a.push(line)) == lenient_line(lenient_load(coins, a), line),
    decreases a.len(),
{
    let all = a.push(line);
    if a.len() > 0 {
        law_lenient_reading_goes_on(lenient_line(coins, a[0]), a.drop_first(), line);
        assert(all.drop_first() =~= a.drop_first().push(line));
        assert(all[0] == a[0]);
    } else {
        assert(all.drop_first() =~= Seq::empty());
        assert(all[0] == line);
        assert(lenient_load(lenient_line(coins, line), all.drop_first()) == lenient_line(
            coins,
            line,
        ));
    }
}

/// How a line of an extended export is read strictly: four words give an output
/// if the amount is a number, the key hexadecimal and the index a number; the
/// first of these that fails is the error, and other lines are passed over.
pub proof fn law_strict_reading(coins: Coins, line: Seq<char>, key: Seq<u8>)
    ensures
        ({
            let w = words_of(line);
            let got = strict_line(coins, line);
            &&& w.len() != 4 ==> got == Ok::<Coins, WalletError>(coins)
            &&& w.len() == 4 && number_in(w[0], u64::MAX as nat) is None ==> got == Err::<
                Coins,
                _,
            >(WalletError::BadValue)
            &&& w.len() == 4 && number_in(w[0], u64::MAX as nat) is Some && !is_hex(w[1]) ==> got
                == Err::<Coins, _>(WalletError::BadKey)
            &&& w.len() == 4 && number_in(w[0], u64::MAX as nat) is Some && is_hex(w[1])
                && number_in(w[3], u32::MAX as nat) is None ==> got == Err::<Coins, _>(
                WalletError::BadVout,
            )
            &&& w.len() == 4 && number_in(w[0], u64::MAX as nat) is Some && is_hex(w[1]) && unhex(
                w[1],
            ) == key && number_in(w[3], u32::MAX as nat) is Some ==> got == Ok::<
                Coins,
                WalletError,
            >(
                coins.insert(
                    (w[2], number_in(w[3], u32::MAX as nat)->0 as u32),
                    TxOutModel {
                        value: number_in(w[0], u64::MAX as nat)->0 as u64,
                        pubkey: key,
                    },
                ),
            )
        }),
{
}

/// Lines are read in turn, and the first that cannot be read ends the reading.
pub proof fn law_strict_reading_goes_on(coins: Coins, a: Seq<Seq<char>>, line: Seq<char>)
    ensures
        strict_load(coins, Seq::empty()) == Ok::<Coins, WalletError>(coins),
        match strict_load(coins, a) {
            Ok(c) => strict_load(coins, a.push(line)) == strict_line(c, line),
            Err(e) => strict_load(coins, a.push(line)) == Err::<Coins, _>(e),
        },
    decreases a.len(),
{
    let all = a.push(line);
    if a.len() > 0 {
        assert(all.drop_first() =~= a.drop_first().push(line));
        assert(all[0] == a[0]);
        match strict_line(coins, a[0]) {
            Ok(next) => {
                law_strict_reading_goes_on(next, a.drop_first(), line);
            },
            Err(_) => {},
        }
    } else {
        assert(all.drop_first() =~= Seq::empty());
        assert(all[0] == line);
        match strict_line(coins, line) {
            Ok(next) => {
                assert(strict_load(next, all.drop_first()) == Ok::<Coins, WalletError>(next));
            },
            Err(_) => {},
        }
    }
}

/// An address in hexadecimal names its key, and any other text the empty key.
pub proof fn law_address_names_key(key: Seq<u8>, text: Seq<char>)
    ensures
        address_key(hex_of(key)) == key,
        !is_hex(text) ==> address_key(text).len() == 0,
        is_hex(text) && unhex(text) == key ==> address_key(text) == key,
{
    lemma_hex_round_trip(key);
}

// ---------------------------------------------------------------------------
// spending an output
// ---------------------------------------------------------------------------

/// The output that a wallet spends is that of the first line of four words with
/// its key: lines before it do not matter, nor do lines behind it.
pub proof fn law_first_owned_line_counts(lines: Seq<Seq<char>>, pk_hex: Seq<char>, i: int)
    requires
        0 <= i < lines.len(),
        words_of(lines[i]).len() == 4,
        words_of(lines[i])[1] == pk_hex,
        forall|j: int|
            0 <= j < i ==> words_of(#[trigger] lines[j]).len() != 4 || words_of(lines[j])[1]
                != pk_hex,
    ensures
        ({
            let w = words_of(lines[i]);
            let got = owned_first(lines, pk_hex);
            match number_in(w[0], u64::MAX as nat) {
                None => got == Err::<(u64, Seq<char>, u32), _>(WalletError::BadValue),
                Some(v) => match number_in(w[3], u32::MAX as nat) {
                    None => got == Err::<(u64, Seq<char>, u32), _>(WalletError::BadVout),
                    Some(n) => got == Ok::<_, WalletError>((v as u64, w[2], n as u32)),
                },
            }
        }),
    decreases lines.len(),
{
    if i > 0 {
        let rest = lines.drop_first();
        assert(rest[i - 1] == lines[i]);
        assert forall|j: int| 0 <= j < i - 1 implies words_of(#[trigger] rest[j]).len() != 4
            || words_of(rest[j])[1] != pk_hex by {
            assert(rest[j] == lines[j + 1]);
        }
        law_first_owned_line_counts(rest, pk_hex, i - 1);
        assert(words_of(lines[0]).len() != 4 || words_of(lines[0])[1] != pk_hex);
    }
}

/// A wallet without a line of its own has nothing to spend.
pub proof fn law_nothing_owned(lines: Seq<Seq<char>>, pk_hex: Seq<char>)
    requires
        forall|j: int|
            0 <= j < lines.len() ==> words_of(#[trigger] lines[j]).len() != 4 || words_of(
                lines[j],
            )[1] != pk_hex,
    ensures
        owned_first(lines, pk_hex) == Err::<(u64, Seq<char>, u32), _>(WalletError::NoOwnedUtxo),
    decreases lines.len(),
{
    if lines.len() > 0 {
        let rest = lines.drop_first();
        assert forall|j: int| 0 <= j < rest.len() implies words_of(#[trigger] rest[j]).len() != 4
            || words_of(rest[j])[1] != pk_hex by {
            assert(rest[j] == lines[j + 1]);
        }
        law_nothing_owned(rest, pk_hex);
        assert(words_of(lines[0]).len() != 4 || words_of(lines[0])[1] != pk_hex);
    }
}

/// A spend has one input, the output that is spent, and one output, the whole
/// amount to the key that is paid.
pub proof fn law_spend_moves_the_whole_output(
    value: u64,
    txid: Seq<u8>,
    vout: u32,
    to: Seq<u8>,
)
    ensures
        ({
            let t = spend_of(value, txid, vout, to);
            &&& t.inputs.len() == 1
            &&& t.inputs[0].prev_txid == txid
            &&& t.inputs[0].vout == vout
            &&& t.inputs[0].signature.len() == 0
            &&& t.outputs.len() == 1
            &&& t.outputs[0].value == value
            &&& t.outputs[0].pubkey == to
            &&& t.version == 1
            &&& t.locktime == 0
        }),
{
}

/// Signing puts the signature on the first input and changes nothing else.
pub proof fn law_signing_changes_one_signature(t: TxModel, signature: Seq<u8>, i: int)
    requires
        0 <= i < t.inputs.len(),
    ensures
        ({
            let s = signed_first(t, signature);
            &&& s.version == t.version
            &&& s.outputs == t.outputs
            &&& s.locktime == t.locktime
            &&& s.inputs.len() == t.inputs.len()
            &&& s.inputs[0].signature == signature
            &&& s.inputs[i].prev_txid == t.inputs[i].prev_txid
            &&& s.inputs[i].vout == t.inputs[i].vout
            &&& i > 0 ==> s.inputs[i].signature == t.inputs[i].signature
        }),
{
}

// ---------------------------------------------------------------------------
// gossip targets
// ---------------------------------------------------------------------------

/// The order of byte strings is that of a dictionary: one comes before another
/// exactly if it is a proper prefix of it, or has the smaller byte where they
/// first differ.
pub proof fn law_order_of_bytes(a: Seq<u8>, b: Seq<u8>)
    ensures
        bytes_before(a, b) <==> (a.len() < b.len() && b.take(a.len() as int) == a) || exists|k: int|
            0 <= k < a.len() && k < b.len() && #[trigger] a.take(k) == b.take(k) && a[k] < b[k],
    decreases a.len(),
{
    if a.len() > 0 && b.len() > 0 && a[0] == b[0] {
        let c = a.drop_first();
        let d = b.drop_first();
        law_order_of_bytes(c, d);
        if c.len() < d.len() && d.take(c.len() as int) == c {
            assert(b.take(a.len() as int) =~= seq![b[0]] + d.take(c.len() as int));
            assert(a =~= seq![a[0]] + c);
        }
        if exists|k: int|
            0 <= k < c.len() && k < d.len() && #[trigger] c.take(k) == d.take(k) && c[k] < d[k] {
            let k = choose|k: int|
                0 <= k < c.len() && k < d.len() && #[trigger] c.take(k) == d.take(k) && c[k] < d[k];
            assert(a.take(k + 1) =~= seq![a[0]] + c.take(k));
            assert(b.take(k + 1) =~= seq![b[0]] + d.take(k));
            assert(a.take(k + 1) == b.take(k + 1));
        }
        if a.len() < b.len() && b.take(a.len() as int) == a {
            assert(d.take(c.len() as int) =~= b.take(a.len() as int).drop_first());
        }
        if exists|k: int|
            0 <= k < a.len() && k < b.len() && #[trigger] a.take(k) == b.take(k) && a[k] < b[k] {
            let k = choose|k: int|
                0 <= k < a.len() && k < b.len() && #[trigger] a.take(k) == b.take(k) && a[k] < b[k];
            assert(k > 0);
            assert(c.take(k - 1) =~= a.take(k).drop_first());
            assert(d.take(k - 1) =~= b.take(k).drop_first());
            assert(c.take(k - 1) == d.take(k - 1));
        }
    } else if a.len() > 0 && b.len() > 0 {
        if a[0] < b[0] {
            assert(a.take(0) =~= b.take(0));
        }
        if a.len() < b.len() && b.take(a.len() as int) == a {
            assert(b.take(a.len() as int)[0] == b[0]);
        }
        if exists|k: int|
            0 <= k < a.len() && k < b.len() && #[trigger] a.take(k) == b.take(k) && a[k] < b[k] {
            let k = choose|k: int|
                0 <= k < a.len() && k < b.len() && #[trigger] a.take(k) == b.take(k) && a[k] < b[k];
            if k > 0 {
                assert(a.take(k)[0] == a[0]);
                assert(b.take(k)[0] == b[0]);
            }
        }
    } else if a.len() == 0 {
        assert(b.take(0) =~= a);
    }
}

/// The targets stand in byte order, the seeds among themselves and the learned
/// addresses among themselves.
pub proof fn law_targets_are_in_order(
    s: Seq<Seq<char>>,
    seeds: Set<Seq<char>>,
    learned: Set<Seq<char>>,
    max: nat,
    i: int,
    j: int,
)
    requires
        first_of(s, seeds, learned, max),
        seeds.disjoint(learned),
        0 <= i < j < s.len(),
        (seeds.contains(s[i]) && seeds.contains(s[j])) || (learned.contains(s[i])
            && learned.contains(s[j])),
    ensures
        bytes_before(encode_utf8(s[i]), encode_utf8(s[j])),
{
    let (a, b) = choose|a: Seq<Seq<char>>, b: Seq<Seq<char>>| #[trigger]
        ascending(a) && #[trigger] ascending(b) && a.to_set() == seeds && b.to_set() == learned && s
            == cut(a + b, max);
    assert(s[i] == (a + b)[i] && s[j] == (a + b)[j]);
    if i < a.len() {
        assert(a.contains(a[i]));
        assert(seeds.contains(s[i]));
        if j >= a.len() {
            assert(b.contains(b[j - a.len()]));
            assert(learned.contains(s[j]));
        } else {
            assert(text_before(a[i], a[j]));
        }
    } else {
        assert(text_before(b[i - a.len()], b[j - a.len()]));
    }
}

/// The targets are as many as there are addresses, or as the bound allows.
pub proof fn law_targets_fill_the_bound(
    s: Seq<Seq<char>>,
    seeds: Set<Seq<char>>,
    learned: Set<Seq<char>>,
    max: nat,
)
    requires
        first_of(s, seeds, learned, max),
    ensures
        seeds.len() + learned.len() <= max ==> s.len() == seeds.len() + learned.len(),
        seeds.len() + learned.len() > max ==> s.len() == max,
{
    let (a, b) = choose|a: Seq<Seq<char>>, b: Seq<Seq<char>>| #[trigger]
        ascending(a) && #[trigger] ascending(b) && a.to_set() == seeds && b.to_set() == learned && s
            == cut(a + b, max);
    lemma_ascending_distinct(a);
    lemma_ascending_distinct(b);
    a.unique_seq_to_set();
    b.unique_seq_to_set();
}

/// What the bound leaves out comes behind what it lets in: an address that is
/// no target stands in byte order behind every target of its kind.
pub proof fn law_targets_are_the_first(
    s: Seq<Seq<char>>,
    seeds: Set<Seq<char>>,
    learned: Set<Seq<char>>,
    max: nat,
    x: Seq<char>,
    i: int,
)
    requires
        first_of(s, seeds, learned, max),
        seeds.disjoint(learned),
        !s.contains(x),
        0 <= i < s.len(),
        (seeds.contains(x) && seeds.contains(s[i])) || (learned.contains(x) && learned.contains(
            s[i],
        )),
    ensures
        bytes_before(encode_utf8(s[i]), encode_utf8(x)),
{
    let (a, b) = choose|a: Seq<Seq<char>>, b: Seq<Seq<char>>| #[trigger]
        ascending(a) && #[trigger] ascending(b) && a.to_set() == seeds && b.to_set() == learned && s
            == cut(a + b, max);
    let all = a + b;
    assert(s[i] == all[i]);
    if seeds.contains(x) {
        assert(a.contains(x));
        let k = choose|k: int| 0 <= k < a.len() && a[k] == x;
        assert(all[k] == x);
        if k < s.len() {
            assert(s[k] == x);
        }
        assert(text_before(a[i], a[k]));
    } else {
        assert(b.contains(x));
        let k = choose|k: int| 0 <= k < b.len() && b[k] == x;
        assert(all[a.len() + k] == x);
        if a.len() + k < s.len() {
            assert(s[a.len() + k] == x);
        }
        if i < a.len() {
            assert(a.contains(a[i]));
            assert(seeds.contains(s[i]));
        }
        assert(text_before(b[i - a.len()], b[k]));
    }
}

proof fn lemma_ascending_distinct(s: Seq<Seq<char>>)
    requires
        ascending(s),
    ensures
        s.no_duplicates(),
{
    assert forall|i: int, j: int|
        0 <= i < s.len() && 0 <= j < s.len() && i != j implies s[i] != s[j] by {
        let (p, q) = if i < j {
            (i, j)
        } else {
            (j, i)
        };
        assert(text_before(s[p], s[q]));
        lemma_not_before_itself(encode_utf8(s[p]));
    }
}

proof fn lemma_not_before_itself(a: Seq<u8>)
    ensures
        !bytes_before(a, a),
    decreases a.len(),
{
    if a.len() > 0 {
        lemma_not_before_itself(a.drop_first());
    }
}

} // verus!
