//! How text is read: words, lines, numbers, and what stands around them.
use vstd::arithmetic::power::{lemma_pow0, lemma_pow1, pow};
use vstd::prelude::*;

use crate::hashing::{hex_of, hex_value, is_hex, lemma_hex_round_trip, unhex};
use crate::text::{
    all_digits, dec_chars, dec_value, is_digit, is_white, lemma_dec_round_trip, lemma_line_opens,
    lemma_word_opens, line_cut, lines_of, number_in, strip_cr, word_cut, words_of,
};
use crate::wallet::{trim_end, trim_start};

verus! {

// ---------------------------------------------------------------------------
// characters
// ---------------------------------------------------------------------------

/// White space is what Unicode lists as such, and nothing else.
pub proof fn law_white_space(c: char)
    ensures
        is_white(c) <==> {
            ||| c == '\t' || c == '\n' || c == '\r' || c == ' '
            ||| c as int == 11 || c as int == 12 || c as int == 133 || c as int == 160
            ||| c as int == 5760 || (8192 <= c as int && c as int <= 8202)
            ||| c as int == 8232 || c as int == 8233 || c as int == 8239 || c as int == 8287
            ||| c as int == 12288
        },
{
}

/// A text is hexadecimal exactly if it has an even number of characters, all of
/// them digits or letters from a to f of either case.
pub proof fn law_hex_text(s: Seq<char>)
    ensures
        is_hex(s) <==> s.len() % 2 == 0 && forall|i: int|
            0 <= i < s.len() ==> ('0' <= #[trigger] s[i] <= '9' || 'a' <= s[i] <= 'f' || 'A'
                <= s[i] <= 'F'),
{
    if is_hex(s) {
        assert forall|i: int| 0 <= i < s.len() implies ('0' <= #[trigger] s[i] <= '9' || 'a'
            <= s[i] <= 'f' || 'A' <= s[i] <= 'F') by {
            assert(hex_value(s[i]) is Some);
        }
    }
    if s.len() % 2 == 0 && forall|i: int|
        0 <= i < s.len() ==> ('0' <= #[trigger] s[i] <= '9' || 'a' <= s[i] <= 'f' || 'A' <= s[i]
            <= 'F') {
        assert forall|i: int| 0 <= i < s.len() implies hex_value(#[trigger] s[i]) is Some by {}
    }
}

/// A byte string in hexadecimal: two lower-case digits for every byte, the high
/// half first, and the text names the bytes again.
pub proof fn law_hex_of_bytes(d: Seq<u8>, i: int)
    requires
        0 <= i < d.len(),
    ensures
        hex_of(d).len() == 2 * d.len(),
        ({
            let high = d[i] as int / 16;
            let low = d[i] as int % 16;
            &&& hex_of(d)[2 * i] as int == (if high < 10 { '0' as int + high } else {
                'a' as int + high - 10
            })
            &&& hex_of(d)[2 * i + 1] as int == (if low < 10 { '0' as int + low } else {
                'a' as int + low - 10
            })
        }),
        is_hex(hex_of(d)),
        unhex(hex_of(d)) == d,
{
    lemma_hex_round_trip(d);
    assert((2 * i) / 2 == i && (2 * i + 1) / 2 == i);
    assert((2 * i) % 2 == 0 && (2 * i + 1) % 2 == 1);
}

// ---------------------------------------------------------------------------
// words
// ---------------------------------------------------------------------------

proof fn lemma_word_cut_behind(a: Seq<char>, b: Seq<char>)
    requires
        word_cut(a).1 == Seq::<char>::empty(),
    ensures
        word_cut(a + b).0 == word_cut(a).0 + word_cut(b).0,
        word_cut(a + b).1 == word_cut(b).1,
    decreases b.len(),
{
    if b.len() == 0 {
        assert(a + b =~= a);
        assert(word_cut(a).0 + word_cut(b).0 =~= word_cut(a).0);
    } else {
        lemma_word_cut_behind(a, b.drop_last());
        assert((a + b).drop_last() =~= a + b.drop_last());
        assert((a + b).last() == b.last());
        let (done, open) = word_cut(b.drop_last());
        assert(word_cut(a).0 + done.push(open) =~= (word_cut(a).0 + done).push(open));
    }
}

/// White space parts words: the words of two texts with white space between
/// them are the words of the first and then those of the second.
pub proof fn law_white_space_parts_words(a: Seq<char>, c: char, b: Seq<char>)
    requires
        is_white(c),
    ensures
        words_of(a + seq![c] + b) == words_of(a) + words_of(b),
{
    let front = a + seq![c];
    assert(front.drop_last() =~= a);
    assert(front.last() == c);
    assert(word_cut(front).1 == Seq::<char>::empty()) by {
        if word_cut(a).1.len() == 0 {
            assert(word_cut(a).1 =~= Seq::empty());
        }
    }
    assert(word_cut(front).0 == words_of(a));
    lemma_word_cut_behind(front, b);
    if word_cut(b).1.len() != 0 {
        assert(words_of(a) + word_cut(b).0.push(word_cut(b).1) =~= (words_of(a) + word_cut(
            b,
        ).0).push(word_cut(b).1));
    }
}

/// A text without white space is one word, and the empty text is none.
pub proof fn law_unbroken_text_is_a_word(w: Seq<char>)
    requires
        forall|i: int| 0 <= i < w.len() ==> !is_white(#[trigger] w[i]),
    ensures
        w.len() > 0 ==> words_of(w) == seq![w],
        w.len() == 0 ==> words_of(w) == Seq::<Seq<char>>::empty(),
{
    let e = Seq::<char>::empty();
    lemma_word_opens(e, w);
    assert(e + w =~= w);
    assert(word_cut(e).0.push(w) =~= seq![w]);
}

// ---------------------------------------------------------------------------
// lines
// ---------------------------------------------------------------------------

proof fn lemma_line_cut_behind(a: Seq<char>, b: Seq<char>)
    requires
        line_cut(a).1 == Seq::<char>::empty(),
    ensures
        line_cut(a + b).0 == line_cut(a).0 + line_cut(b).0,
        line_cut(a + b).1 == line_cut(b).1,
    decreases b.len(),
{
    if b.len() == 0 {
        assert(a + b =~= a);
        assert(line_cut(a).0 + line_cut(b).0 =~= line_cut(a).0);
    } else {
        lemma_line_cut_behind(a, b.drop_last());
        assert((a + b).drop_last() =~= a + b.drop_last());
        assert((a + b).last() == b.last());
        let (done, open) = line_cut(b.drop_last());
        assert(line_cut(a).0 + done.push(strip_cr(open)) =~= (line_cut(a).0 + done).push(
            strip_cr(open),
        ));
    }
}

proof fn lemma_first_line(line: Seq<char>, rest: Seq<char>)
    requires
        forall|i: int| 0 <= i < line.len() ==> #[trigger] line[i] != '\n',
    ensures
        lines_of(line + seq!['\n'] + rest) == seq![strip_cr(line)] + lines_of(rest),
{
    let e = Seq::<char>::empty();
    let front = line + seq!['\n'];
    lemma_line_opens(e, line);
    assert(e + line =~= line);
    assert(front.drop_last() =~= line);
    assert(front.last() == '\n');
    assert(line_cut(front).0 =~= seq![strip_cr(line)]);
    lemma_line_cut_behind(front, rest);
    let (done, open) = line_cut(rest);
    if open.len() != 0 {
        assert(seq![strip_cr(line)] + done.push(open) =~= (seq![strip_cr(line)] + done).push(open));
    }
}

/// A line feed ends a line, and the lines of what follows come behind it; a
/// carriage return right before the line feed does not belong to the line.
pub proof fn law_line_feed_ends_a_line(line: Seq<char>, rest: Seq<char>)
    requires
        forall|i: int| 0 <= i < line.len() ==> #[trigger] line[i] != '\n',
    ensures
        line.len() == 0 || line.last() != '\r' ==> lines_of(line + seq!['\n'] + rest) == seq![line]
            + lines_of(rest),
        lines_of(line + seq!['\r', '\n'] + rest) == seq![line] + lines_of(rest),
{
    lemma_first_line(line, rest);
    let cr = line.push('\r');
    assert forall|i: int| 0 <= i < cr.len() implies #[trigger] cr[i] != '\n' by {
        if i < line.len() {
            assert(line[i] != '\n');
        }
    }
    lemma_first_line(cr, rest);
    assert(cr.drop_last() =~= line);
    assert(cr + seq!['\n'] =~= line + seq!['\r', '\n']);
}

/// What no line feed ends is a line too, unless it is empty.
pub proof fn law_open_line_counts(line: Seq<char>)
    requires
        forall|i: int| 0 <= i < line.len() ==> #[trigger] line[i] != '\n',
    ensures
        line.len() > 0 ==> lines_of(line) == seq![line],
        line.len() == 0 ==> lines_of(line) == Seq::<Seq<char>>::empty(),
{
    let e = Seq::<char>::empty();
    lemma_line_opens(e, line);
    assert(e + line =~= line);
    assert(line_cut(e).0.push(line) =~= seq![line]);
}

// ---------------------------------------------------------------------------
// numbers
// ---------------------------------------------------------------------------

/// Decimal digits count by their place: digits in front count ten times as much
/// for every digit behind them, and one digit alone is what it shows.
pub proof fn law_decimal_places(a: Seq<char>, b: Seq<char>)
    ensures
        dec_value(a + b) == dec_value(a) * pow(10, b.len()) + dec_value(b),
        forall|c: char| '0' <= c <= '9' ==> #[trigger] dec_value(seq![c]) == c as int - '0' as int,
    decreases b.len(),
{
    assert forall|c: char| '0' <= c <= '9' implies #[trigger] dec_value(seq![c]) == c as int
        - '0' as int by {
        assert(seq![c].drop_last() =~= Seq::empty());
        assert(dec_value(seq![c].drop_last()) == 0);
    }
    if b.len() == 0 {
        lemma_pow0(10);
        assert(a + b =~= a);
    } else {
        law_decimal_places(a, b.drop_last());
        assert((a + b).drop_last() =~= a + b.drop_last());
        assert((a + b).last() == b.last());
        let p = pow(10, (b.len() - 1) as nat);
        assert(pow(10, b.len()) == 10 * p) by {
            reveal(pow);
        }
        let x = dec_value(a) as int;
        assert((x * p) * 10 == x * (10 * p)) by (nonlinear_arith);
    }
}

/// A number in decimal is its digits without a leading zero.
pub proof fn law_decimal_form(n: nat)
    ensures
        dec_value(dec_chars(n)) == n,
        dec_chars(n).len() > 0,
        forall|i: int| 0 <= i < dec_chars(n).len() ==> '0' <= #[trigger] dec_chars(n)[i] <= '9',
        n > 0 ==> dec_chars(n)[0] != '0',
        n == 0 ==> dec_chars(n) == seq!['0'],
    decreases n,
{
    lemma_dec_round_trip(n);
    assert forall|i: int| 0 <= i < dec_chars(n).len() implies '0' <= #[trigger] dec_chars(n)[i]
        <= '9' by {
        assert(is_digit(dec_chars(n)[i]));
    }
    if n >= 10 {
        law_decimal_form(n / 10);
    }
}

/// A text names a number exactly if it is digits, at least one of them, with or
/// without one plus sign in front, and the number does not pass the bound.
pub proof fn law_number_is_read(d: Seq<char>, max: nat)
    ensures
        ({
            let digits = d.len() > 0 && forall|i: int|
                0 <= i < d.len() ==> '0' <= #[trigger] d[i] <= '9';
            &&& digits && dec_value(d) <= max ==> number_in(d, max) == Some(dec_value(d))
                && number_in(seq!['+'] + d, max) == Some(dec_value(d))
            &&& digits && dec_value(d) > max ==> number_in(d, max) is None && number_in(
                seq!['+'] + d,
                max,
            ) is None
            &&& !digits ==> number_in(seq!['+'] + d, max) is None
            &&& !digits && (d.len() == 0 || d[0] != '+') ==> number_in(d, max) is None
        }),
{
    let p = seq!['+'] + d;
    assert(p.drop_first() =~= d);
    if d.len() > 0 && forall|i: int| 0 <= i < d.len() ==> '0' <= #[trigger] d[i] <= '9' {
        assert(d[0] != '+');
        assert(all_digits(d)) by {
            assert forall|i: int| 0 <= i < d.len() implies is_digit(
                #[trigger] d[i],
            ) by {}
        }
    } else if all_digits(d) {
        assert forall|i: int| 0 <= i < d.len() implies '0' <= #[trigger] d[i] <= '9' by {
            assert(is_digit(d[i]));
        }
    }
}

// ---------------------------------------------------------------------------
// trimming
// ---------------------------------------------------------------------------

proof fn lemma_trim_start(s: Seq<char>) -> (k: int)
    ensures
        0 <= k <= s.len(),
        trim_start(s) == s.skip(k),
        forall|i: int| 0 <= i < k ==> is_white(#[trigger] s[i]),
        k < s.len() ==> !is_white(s[k]),
    decreases s.len(),
{
    if s.len() > 0 && is_white(s[0]) {
        let rest = s.drop_first();
        let k = lemma_trim_start(rest);
        assert(rest.skip(k) =~= s.skip(k + 1));
        assert forall|i: int| 0 <= i < k + 1 implies is_white(#[trigger] s[i]) by {
            if i > 0 {
                assert(rest[i - 1] == s[i]);
            }
        }
        if k < rest.len() {
            assert(rest[k] == s[k + 1]);
        }
        k + 1
    } else {
        assert(s.skip(0) =~= s);
        0
    }
}

proof fn lemma_trim_end(s: Seq<char>) -> (k: int)
    ensures
        0 <= k <= s.len(),
        trim_end(s) == s.take(k),
        forall|i: int| k <= i < s.len() ==> is_white(#[trigger] s[i]),
        k > 0 ==> !is_white(s[k - 1]),
    decreases s.len(),
{
    if s.len() > 0 && is_white(s.last()) {
        let rest = s.drop_last();
        let k = lemma_trim_end(rest);
        assert(rest.take(k) =~= s.take(k));
        assert forall|i: int| k <= i < s.len() implies is_white(#[trigger] s[i]) by {
            if i < rest.len() {
                assert(rest[i] == s[i]);
            }
        }
        if k > 0 {
            assert(rest[k - 1] == s[k - 1]);
        }
        k
    } else {
        assert(s.take(s.len() as int) =~= s);
        s.len() as int
    }
}

/// Trimming takes away all the white space around a text, and only that.
pub proof fn law_trim_takes_white_space(s: Seq<char>) -> (r: (int, int))
    ensures
        0 <= r.0 <= r.1 <= s.len(),
        trim_end(trim_start(s)) == s.subrange(r.0, r.1),
        forall|i: int| 0 <= i < r.0 || r.1 <= i < s.len() ==> is_white(#[trigger] s[i]),
        r.0 < r.1 ==> !is_white(s[r.0]) && !is_white(s[r.1 - 1]),
{
    let a = lemma_trim_start(s);
    let t = s.skip(a);
    let k = lemma_trim_end(t);
    assert(t.take(k) =~= s.subrange(a, a + k));
    assert forall|i: int| 0 <= i < a || a + k <= i < s.len() implies is_white(#[trigger] s[i]) by {
        if i >= a + k {
            assert(t[i - a] == s[i]);
        }
    }
    if k > 0 {
        assert(t[k - 1] == s[a + k - 1]);
    }
    (a, a + k)
}

} // verus!
