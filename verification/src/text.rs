//! Text: characters, lines, words and decimal numbers.
use vstd::prelude::*;
use vstd::utf8::{decode_utf8, valid_utf8};
use vstd::string::*;

use crate::bytes::same_bytes;

verus! {

/// `String::push` appends one character to the end of the string.
pub assume_specification[ String::push ](s: &mut String, c: char)
    ensures
        final(s)@ == old(s)@.push(c),
;

/// The text that a byte string encodes in UTF-8.
///
/// Calls `String::from_utf8`, which accepts exactly the byte strings that are
/// valid UTF-8 and returns the text that they encode.
#[verifier::external_body]
pub(crate) fn text_from_utf8(bytes: Vec<u8>) -> (r: Option<String>)
    ensures
        r is Some <==> valid_utf8(bytes@),
        r matches Some(s) ==> s@ == decode_utf8(bytes@),
{
    String::from_utf8(bytes).ok()
}

/// The characters of a text.
pub fn chars_of(s: &str) -> (r: Vec<char>)
    ensures
        r@ == s@,
{
    let mut out: Vec<char> = Vec::new();
    for c in it: s.chars()
        invariant
            it.seq() == s@,
            out@ == s@.take(it.index() as int),
    {
        out.push(c);
        assert(out@ =~= s@.take(it.index() + 1));
    }
    assert(out@ =~= s@);
    out
}

/// The text made of the given characters.
pub fn text_of(chars: &Vec<char>) -> (r: String)
    ensures
        r@ == chars@,
{
    let mut out: String = String::new();
    let mut i: usize = 0;
    while i < chars.len()
        invariant
            i <= chars@.len(),
            out@ == chars@.take(i as int),
        decreases chars@.len() - i,
    {
        out.push(chars[i]);
        i = i + 1;
        assert(out@ =~= chars@.take(i as int));
    }
    assert(out@ =~= chars@);
    out
}

/// Whether two texts are the same.
pub fn same_text(a: &str, b: &str) -> (r: bool)
    ensures
        r == (a@ == b@),
{
    proof {
        vstd::utf8::encode_utf8_decode_utf8(a@);
        vstd::utf8::encode_utf8_decode_utf8(b@);
    }
    same_bytes(a.as_bytes(), b.as_bytes())
}

/// A copy of a text.
pub fn copy_text(s: &str) -> (r: String)
    ensures
        r@ == s@,
{
    s.to_owned()
}

/// The characters with the Unicode property `White_Space`.
pub open spec fn is_white(c: char) -> bool {
    let u = c as u32;
    ||| 0x09 <= u <= 0x0d
    ||| u == 0x20
    ||| u == 0x85
    ||| u == 0xa0
    ||| u == 0x1680
    ||| 0x2000 <= u <= 0x200a
    ||| u == 0x2028
    ||| u == 0x2029
    ||| u == 0x202f
    ||| u == 0x205f
    ||| u == 0x3000
}

/// Whether a character has the Unicode property `White_Space`.
pub fn white(c: char) -> (r: bool)
    ensures
        r == is_white(c),
{
    let u: u32 = c as u32;
    (0x09 <= u && u <= 0x0d) || u == 0x20 || u == 0x85 || u == 0xa0 || u == 0x1680 || (0x2000 <= u
        && u <= 0x200a) || u == 0x2028 || u == 0x2029 || u == 0x202f || u == 0x205f || u == 0x3000
}

// ---------------------------------------------------------------------------
// lines and words
// ---------------------------------------------------------------------------

/// `s` without one trailing carriage return.
pub open spec fn strip_cr(s: Seq<char>) -> Seq<char> {
    if s.len() > 0 && s.last() == '\r' {
        s.drop_last()
    } else {
        s
    }
}

/// The lines of `s` that a line feed ends, and what follows the last of them.
pub open spec fn line_cut(s: Seq<char>) -> (Seq<Seq<char>>, Seq<char>)
    decreases s.len(),
{
    if s.len() == 0 {
        (Seq::empty(), Seq::empty())
    } else {
        let (done, open) = line_cut(s.drop_last());
        if s.last() == '\n' {
            (done.push(strip_cr(open)), Seq::empty())
        } else {
            (done, open.push(s.last()))
        }
    }
}

/// The lines of a text: a line feed, or a carriage return and a line feed, end
/// a line; what follows the last of these is a line too unless it is empty.
pub open spec fn lines_of(s: Seq<char>) -> Seq<Seq<char>> {
    let (done, open) = line_cut(s);
    if open.len() == 0 {
        done
    } else {
        done.push(open)
    }
}

/// The words of `s` that white space ends, and what follows the last of these.
pub open spec fn word_cut(s: Seq<char>) -> (Seq<Seq<char>>, Seq<char>)
    decreases s.len(),
{
    if s.len() == 0 {
        (Seq::empty(), Seq::empty())
    } else {
        let (done, open) = word_cut(s.drop_last());
        if !is_white(s.last()) {
            (done, open.push(s.last()))
        } else if open.len() == 0 {
            (done, open)
        } else {
            (done.push(open), Seq::empty())
        }
    }
}

/// The words of a text: its longest runs without white space.
pub open spec fn words_of(s: Seq<char>) -> Seq<Seq<char>> {
    let (done, open) = word_cut(s);
    if open.len() == 0 {
        done
    } else {
        done.push(open)
    }
}

/// Characters without a line feed stay on the open line.
pub proof fn lemma_line_opens(a: Seq<char>, line: Seq<char>)
    requires
        line_cut(a).1 == Seq::<char>::empty(),
        forall|i: int| 0 <= i < line.len() ==> #[trigger] line[i] != '\n',
    ensures
        line_cut(a + line) == (line_cut(a).0, line),
    decreases line.len(),
{
    if line.len() == 0 {
        assert(a + line =~= a);
        assert(line =~= Seq::empty());
    } else {
        let front = line.drop_last();
        assert forall|i: int| 0 <= i < front.len() implies #[trigger] front[i] != '\n' by {
            assert(line[i] != '\n');
        }
        lemma_line_opens(a, front);
        assert((a + line).drop_last() =~= a + front);
        assert((a + line).last() == line[line.len() - 1]);
        assert(front.push(line.last()) =~= line);
    }
}

/// Characters without white space stay in the open word.
pub proof fn lemma_word_opens(a: Seq<char>, word: Seq<char>)
    requires
        word_cut(a).1 == Seq::<char>::empty(),
        forall|i: int| 0 <= i < word.len() ==> !is_white(#[trigger] word[i]),
    ensures
        word_cut(a + word) == (word_cut(a).0, word),
    decreases word.len(),
{
    if word.len() == 0 {
        assert(a + word =~= a);
        assert(word =~= Seq::empty());
    } else {
        let front = word.drop_last();
        assert forall|i: int| 0 <= i < front.len() implies !is_white(#[trigger] front[i]) by {
            assert(!is_white(word[i]));
        }
        lemma_word_opens(a, front);
        assert((a + word).drop_last() =~= a + front);
        assert((a + word).last() == word[word.len() - 1]);
        assert(front.push(word.last()) =~= word);
    }
}

/// The contents of a list of character lists.
pub open spec fn char_lists(v: Seq<Vec<char>>) -> Seq<Seq<char>> {
    v.map_values(|c: Vec<char>| c@)
}

/// The lines of a text.
pub fn split_lines(s: &Vec<char>) -> (r: Vec<Vec<char>>)
    ensures
        char_lists(r@) == lines_of(s@),
{
    let mut done: Vec<Vec<char>> = Vec::new();
    let mut open: Vec<char> = Vec::new();
    let mut i: usize = 0;
    assert(char_lists(done@) =~= Seq::empty());
    while i < s.len()
        invariant
            i <= s@.len(),
            line_cut(s@.take(i as int)) == (char_lists(done@), open@),
        decreases s@.len() - i,
    {
        let ghost was = done@;
        let ghost was_open = open@;
        let c: char = s[i];
        i = i + 1;
        assert(s@.take(i as int).drop_last() =~= s@.take(i - 1));
        if c == '\n' {
            if open.len() > 0 && open[open.len() - 1] == '\r' {
                open.pop();
                assert(open@ =~= was_open.drop_last());
            }
            done.push(open);
            assert(char_lists(done@) =~= char_lists(was).push(strip_cr(was_open)));
            open = Vec::new();
            assert(open@ =~= Seq::empty());
        } else {
            open.push(c);
        }
    }
    assert(s@.take(i as int) =~= s@);
    if open.len() > 0 {
        let ghost was = done@;
        let ghost was_open = open@;
        done.push(open);
        assert(char_lists(done@) =~= char_lists(was).push(was_open));
    }
    done
}

/// The words of a text.
pub fn split_words(s: &Vec<char>) -> (r: Vec<Vec<char>>)
    ensures
        char_lists(r@) == words_of(s@),
{
    let mut done: Vec<Vec<char>> = Vec::new();
    let mut open: Vec<char> = Vec::new();
    let mut i: usize = 0;
    assert(char_lists(done@) =~= Seq::empty());
    while i < s.len()
        invariant
            i <= s@.len(),
            word_cut(s@.take(i as int)) == (char_lists(done@), open@),
        decreases s@.len() - i,
    {
        let ghost was = done@;
        let ghost was_open = open@;
        let c: char = s[i];
        i = i + 1;
        assert(s@.take(i as int).drop_last() =~= s@.take(i - 1));
        if !white(c) {
            open.push(c);
        } else if open.len() > 0 {
            done.push(open);
            assert(char_lists(done@) =~= char_lists(was).push(was_open));
            open = Vec::new();
            assert(open@ =~= Seq::empty());
        }
    }
    assert(s@.take(i as int) =~= s@);
    if open.len() > 0 {
        let ghost was = done@;
        let ghost was_open = open@;
        done.push(open);
        assert(char_lists(done@) =~= char_lists(was).push(was_open));
    }
    done
}

// ---------------------------------------------------------------------------
// decimal numbers
// ---------------------------------------------------------------------------

/// Whether a character is a decimal digit.
pub open spec fn is_digit(c: char) -> bool {
    '0' <= c <= '9'
}

/// The decimal digit of a number below ten.
pub open spec fn digit_char(n: nat) -> char {
    (48 + n) as char
}

/// The number that decimal digits name, the most significant first.
pub open spec fn dec_value(s: Seq<char>) -> nat
    decreases s.len(),
{
    if s.len() == 0 {
        0
    } else {
        dec_value(s.drop_last()) * 10 + (s.last() as nat - 48) as nat
    }
}

/// A number in decimal, without leading zeros.
pub open spec fn dec_chars(n: nat) -> Seq<char>
    decreases n,
{
    if n < 10 {
        seq![digit_char(n)]
    } else {
        dec_chars(n / 10).push(digit_char(n % 10))
    }
}

/// Whether every character is a decimal digit.
pub open spec fn all_digits(s: Seq<char>) -> bool {
    forall|i: int| 0 <= i < s.len() ==> is_digit(#[trigger] s[i])
}

/// The text behind an optional plus sign.
pub open spec fn unsigned_part(s: Seq<char>) -> Seq<char> {
    if s.len() > 0 && s[0] == '+' {
        s.drop_first()
    } else {
        s
    }
}

/// The number that a text names: decimal digits, at least one, behind an
/// optional plus sign, with a value of at most `max`.
pub open spec fn number_in(s: Seq<char>, max: nat) -> Option<nat> {
    let d = unsigned_part(s);
    if d.len() > 0 && all_digits(d) && dec_value(d) <= max {
        Some(dec_value(d))
    } else {
        None
    }
}

/// The decimal form of a number reads back as the number.
pub proof fn lemma_dec_round_trip(n: nat)
    ensures
        all_digits(dec_chars(n)),
        dec_chars(n).len() > 0,
        dec_value(dec_chars(n)) == n,
        unsigned_part(dec_chars(n)) == dec_chars(n),
        forall|i: int| 0 <= i < dec_chars(n).len() ==> !is_white(#[trigger] dec_chars(n)[i]),
    decreases n,
{
    if n >= 10 {
        lemma_dec_round_trip(n / 10);
        let s = dec_chars(n);
        assert(s.drop_last() =~= dec_chars(n / 10));
        assert(s[0] == dec_chars(n / 10)[0]);
        assert(is_digit(s[0]));
        assert(s.last() == digit_char(n % 10));
        assert(s.last() as nat - 48 == n % 10);
    } else {
        let s = dec_chars(n);
        assert(s.drop_last() =~= Seq::empty());
        assert(is_digit(s[0]));
        assert(dec_value(s.drop_last()) == 0);
        assert(s.last() as nat - 48 == n);
    }
    assert forall|i: int| 0 <= i < dec_chars(n).len() implies !is_white(
        #[trigger] dec_chars(n)[i],
    ) by {
        assert(is_digit(dec_chars(n)[i]));
    }
}

/// A longer digit string names a number at least as large.
proof fn lemma_dec_value_grows(s: Seq<char>, i: int)
    requires
        0 <= i <= s.len(),
        all_digits(s),
    ensures
        dec_value(s.take(i)) <= dec_value(s),
    decreases s.len() - i,
{
    if i < s.len() {
        let t = s.take(i + 1);
        assert(t.drop_last() =~= s.take(i));
        assert(is_digit(s[i]));
        lemma_dec_value_grows(s, i + 1);
    } else {
        assert(s.take(i) =~= s);
    }
}

/// Reads a decimal number of at most `max`.
pub fn parse_number(s: &Vec<char>, max: u64) -> (r: Option<u64>)
    ensures
        match r {
            Some(v) => number_in(s@, max as nat) == Some(v as nat),
            None => number_in(s@, max as nat) is None,
        },
{
    let ghost d = unsigned_part(s@);
    let start: usize = if s.len() > 0 && s[0] == '+' {
        1
    } else {
        0
    };
    assert(d =~= s@.subrange(start as int, s@.len() as int));
    if s.len() == start {
        return None;
    }
    let mut v: u64 = 0;
    let mut i: usize = start;
    assert(d.take(0) =~= Seq::empty());
    while i < s.len()
        invariant
            start <= i <= s@.len(),
            d == s@.subrange(start as int, s@.len() as int),
            d == unsigned_part(s@),
            d.len() > 0,
            v as nat == dec_value(d.take(i - start)),
            v <= max,
            forall|j: int| 0 <= j < i - start ==> is_digit(#[trigger] d[j]),
        decreases s@.len() - i,
    {
        let c: char = s[i];
        assert(d[i - start] == c);
        if c < '0' || c > '9' {
            assert(!is_digit(d[i - start]));
            return None;
        }
        let digit: u64 = (c as u32 - 48) as u64;
        let wide: u128 = v as u128 * 10 + digit as u128;
        proof {
            let t = d.take(i - start + 1);
            assert(t.drop_last() =~= d.take(i - start));
            assert(t.last() == c);
        }
        if wide > max as u128 {
            proof {
                if all_digits(d) {
                    lemma_dec_value_grows(d, i - start + 1);
                }
            }
            return None;
        }
        v = wide as u64;
        i = i + 1;
    }
    assert(d.take(i - start) =~= d);
    Some(v)
}

/// Appends a number in decimal.
pub fn push_decimal(o: &mut String, n: u64)
    ensures
        final(o)@ == old(o)@ + dec_chars(n as nat),
    decreases n,
{
    let digit: char = digit_of((n % 10) as u32);
    if n >= 10 {
        push_decimal(o, n / 10);
    }
    o.push(digit);
    assert(o@ =~= old(o)@ + dec_chars(n as nat));
}

fn digit_of(n: u32) -> (c: char)
    requires
        n < 10,
    ensures
        c == digit_char(n as nat),
{
    if n == 0 {
        '0'
    } else if n == 1 {
        '1'
    } else if n == 2 {
        '2'
    } else if n == 3 {
        '3'
    } else if n == 4 {
        '4'
    } else if n == 5 {
        '5'
    } else if n == 6 {
        '6'
    } else if n == 7 {
        '7'
    } else if n == 8 {
        '8'
    } else {
        '9'
    }
}

} // verus!
