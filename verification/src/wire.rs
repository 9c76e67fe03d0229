//! The wire: limits, errors, and reading fields off a byte string.
use vstd::prelude::*;
use vstd::utf8::{decode_utf8, encode_utf8, valid_utf8};

use crate::bytes::{
    copy_bytes, le_bytes, le_value, lemma_le_round_trip, lemma_le_value_bound, lemma_pow256,
    sized_bytes, to_array_32,
};
use crate::chain::NodeError;
use crate::hashing::{hex_of, hex_text};
use crate::text::{copy_text, text_from_utf8};

verus! {

/// Protocol magic: "PQBT".
pub const MAGIC: u32 = 0x5051_4254;

/// Wire protocol version (bump on breaking change).
pub const VERSION: u32 = 3;

/// Hard cap for a single framed message (4 MiB; a full block is far below).
pub const MAX_MSG: usize = 4_194_304;

/// Max entries an addr book will hold.
pub const MAX_BOOK: usize = 512;

/// Max addrs accepted in one ADDR message.
pub const MAX_ADDR_MSG: usize = 1024;

pub const MSG_HANDSHAKE: u8 = 0x01;

pub const MSG_PING: u8 = 0x02;

pub const MSG_PONG: u8 = 0x03;

pub const MSG_GETBLOCKS: u8 = 0x04;

pub const MSG_BLOCKS: u8 = 0x05;

pub const MSG_GETADDR: u8 = 0x06;

pub const MSG_ADDR: u8 = 0x07;

pub const MSG_TX: u8 = 0x08;

pub const MSG_GETMEMPOOL: u8 = 0x09;

pub const MSG_MEMPOOL: u8 = 0x0A;

// ---------------------------------------------------------------------------
// errors
// ---------------------------------------------------------------------------

/// What kind of trouble a transport had.
#[derive(Debug, Clone, Copy, PartialEq, Eq, Structural)]
pub enum IoKind {
    UnexpectedEof,
    WouldBlock,
    TimedOut,
    Other,
}

/// Trouble of a transport: its kind, and the words for it.
#[derive(Debug)]
pub struct IoError {
    pub kind: IoKind,
    pub text: String,
}

/// Errors the p2p layer can surface.
#[derive(Debug)]
pub enum NetError {
    Io(IoError),
    /// Frame larger than MAX_MSG.
    TooLarge,
    /// Payload ended mid-field.
    Truncated,
    /// Peer magic mismatch.
    BadMagic,
    /// Message type byte we do not know.
    UnknownMsg(u8),
    /// Peer sent a block our chain rejected (PQ/PoW/chaining).
    BadBlock(NodeError),
}

impl NetError {
    /// The error in words.
    pub open spec fn words(self) -> Seq<char> {
        match self {
            NetError::Io(e) => "io: "@ + e.text@,
            NetError::TooLarge => "frame exceeds MAX_MSG"@,
            NetError::Truncated => "payload truncated mid-field"@,
            NetError::BadMagic => "peer magic mismatch"@,
            NetError::UnknownMsg(k) => "unknown message type 0x"@ + hex_of(seq![k]),
            NetError::BadBlock(e) => "peer sent invalid block: "@ + e.words(),
        }
    }

    /// The error in words.
    pub fn describe(&self) -> (r: String)
        ensures
            r@ == self.words(),
    {
        match self {
            NetError::Io(e) => {
                let mut s: String = copy_text("io: ");
                s.append(&e.text);
                s
            },
            NetError::TooLarge => copy_text("frame exceeds MAX_MSG"),
            NetError::Truncated => copy_text("payload truncated mid-field"),
            NetError::BadMagic => copy_text("peer magic mismatch"),
            NetError::UnknownMsg(k) => {
                let mut one: Vec<u8> = Vec::new();
                one.push(*k);
                assert(one@ =~= seq![*k]);
                let mut s: String = copy_text("unknown message type 0x");
                let h: String = hex_text(&one);
                s.append(&h);
                s
            },
            NetError::BadBlock(e) => {
                let mut s: String = copy_text("peer sent invalid block: ");
                let d: String = e.describe();
                s.append(&d);
                s
            },
        }
    }
}

/// Why a payload cannot be read.
#[derive(Debug, Clone, Copy, PartialEq, Eq, Structural)]
pub enum WireFault {
    TooLarge,
    Truncated,
}

impl WireFault {
    /// The error that the p2p layer surfaces for it.
    pub open spec fn net(self) -> NetError {
        match self {
            WireFault::TooLarge => NetError::TooLarge,
            WireFault::Truncated => NetError::Truncated,
        }
    }

    /// The error that the p2p layer surfaces for it.
    pub fn to_net(self) -> (r: NetError)
        ensures
            r == self.net(),
    {
        match self {
            WireFault::TooLarge => NetError::TooLarge,
            WireFault::Truncated => NetError::Truncated,
        }
    }
}

// ---------------------------------------------------------------------------
// parsers
// ---------------------------------------------------------------------------

/// What reading a value off the front of a byte string comes to: the value and
/// the bytes behind it, or why there is none.
pub type Parsed<T> = Result<(T, Seq<u8>), WireFault>;

/// A way to read a value off the front of a byte string.
pub type Parser<T> = spec_fn(Seq<u8>) -> Parsed<T>;

/// The first `n` bytes.
pub open spec fn raw(n: nat) -> Parser<Seq<u8>> {
    |s: Seq<u8>|
        if s.len() < n {
            Err(WireFault::Truncated)
        } else {
            Ok((s.take(n as int), s.skip(n as int)))
        }
}

/// Four bytes as a number, least significant first.
pub open spec fn word32() -> Parser<u32> {
    |s: Seq<u8>|
        match raw(4)(s) {
            Ok((b, rest)) => Ok((le_value(b) as u32, rest)),
            Err(e) => Err(e),
        }
}

/// Eight bytes as a number, least significant first.
pub open spec fn word64() -> Parser<u64> {
    |s: Seq<u8>|
        match raw(8)(s) {
            Ok((b, rest)) => Ok((le_value(b) as u64, rest)),
            Err(e) => Err(e),
        }
}

/// A byte string behind its length in four bytes; the length is capped.
pub open spec fn sized() -> Parser<Seq<u8>> {
    |s: Seq<u8>|
        match word32()(s) {
            Ok((n, rest)) => if n > MAX_MSG {
                Err(WireFault::TooLarge)
            } else {
                raw(n as nat)(rest)
            },
            Err(e) => Err(e),
        }
}

/// A text: a sized byte string that has to be UTF-8.
pub open spec fn utf8() -> Parser<Seq<char>> {
    |s: Seq<u8>|
        match sized()(s) {
            Ok((b, rest)) => if valid_utf8(b) {
                Ok((decode_utf8(b), rest))
            } else {
                Err(WireFault::Truncated)
            },
            Err(e) => Err(e),
        }
}

/// One value behind another.
pub open spec fn both<A, B>(p: Parser<A>, q: Parser<B>) -> Parser<(A, B)> {
    |s: Seq<u8>|
        match p(s) {
            Ok((a, rest)) => match q(rest) {
                Ok((b, behind)) => Ok(((a, b), behind)),
                Err(e) => Err(e),
            },
            Err(e) => Err(e),
        }
}

/// A value made of another.
pub open spec fn made<A, B>(p: Parser<A>, f: spec_fn(A) -> B) -> Parser<B> {
    |s: Seq<u8>|
        match p(s) {
            Ok((a, rest)) => Ok((f(a), rest)),
            Err(e) => Err(e),
        }
}

/// The result with values in front of those that were read.
pub open spec fn prepended<T>(front: Seq<T>, r: Parsed<Seq<T>>) -> Parsed<Seq<T>> {
    match r {
        Ok((v, rest)) => Ok((front + v, rest)),
        Err(e) => Err(e),
    }
}

/// `n` values, one behind the other.
pub open spec fn times<T>(p: Parser<T>, s: Seq<u8>, n: nat) -> Parsed<Seq<T>>
    decreases n,
{
    if n == 0 {
        Ok((Seq::empty(), s))
    } else {
        match p(s) {
            Ok((x, rest)) => prepended(seq![x], times(p, rest, (n - 1) as nat)),
            Err(e) => Err(e),
        }
    }
}

/// Values behind their number in four bytes; the number is capped.
pub open spec fn counted<T>(p: Parser<T>, max: nat) -> Parser<Seq<T>> {
    |s: Seq<u8>|
        match word32()(s) {
            Ok((n, rest)) => if n > max {
                Err(WireFault::TooLarge)
            } else {
                times(p, rest, n as nat)
            },
            Err(e) => Err(e),
        }
}

// ---------------------------------------------------------------------------
// encodings that read back
// ---------------------------------------------------------------------------

/// Whether `e` reads back as `x`: whatever follows it, exactly `e` is read and
/// gives `x`, and every proper prefix of it is found to be cut short.
pub open spec fn reads_back<T>(p: Parser<T>, e: Seq<u8>, x: T) -> bool {
    &&& forall|rest: Seq<u8>| #[trigger] p(e + rest) == Ok::<_, WireFault>((x, rest))
    &&& forall|k: int|
        0 <= k < e.len() ==> #[trigger] p(e.take(k)) == Err::<(T, Seq<u8>), _>(
            WireFault::Truncated,
        )
}

pub proof fn lemma_raw(e: Seq<u8>)
    ensures
        reads_back(raw(e.len()), e, e),
{
    assert forall|rest: Seq<u8>| #[trigger] raw(e.len())(e + rest) == Ok::<_, WireFault>(
        (e, rest),
    ) by {
        assert((e + rest).take(e.len() as int) =~= e);
        assert((e + rest).skip(e.len() as int) =~= rest);
    }
}

pub proof fn lemma_word32(v: u32)
    ensures
        reads_back(word32(), le_bytes(v as nat, 4), v),
        le_bytes(v as nat, 4).len() == 4,
{
    lemma_pow256();
    lemma_le_round_trip(v as nat, 4);
    let e = le_bytes(v as nat, 4);
    lemma_raw(e);
    assert forall|rest: Seq<u8>| #[trigger] word32()(e + rest) == Ok::<_, WireFault>((v, rest)) by {
        assert(raw(e.len())(e + rest) == Ok::<_, WireFault>((e, rest)));
    }
    assert forall|k: int| 0 <= k < e.len() implies #[trigger] word32()(e.take(k)) == Err::<
        (u32, Seq<u8>),
        _,
    >(WireFault::Truncated) by {
        assert(raw(e.len())(e.take(k)) is Err);
    }
}

pub proof fn lemma_word64(v: u64)
    ensures
        reads_back(word64(), le_bytes(v as nat, 8), v),
        le_bytes(v as nat, 8).len() == 8,
{
    lemma_pow256();
    lemma_le_round_trip(v as nat, 8);
    let e = le_bytes(v as nat, 8);
    lemma_raw(e);
    assert forall|rest: Seq<u8>| #[trigger] word64()(e + rest) == Ok::<_, WireFault>((v, rest)) by {
        assert(raw(e.len())(e + rest) == Ok::<_, WireFault>((e, rest)));
    }
    assert forall|k: int| 0 <= k < e.len() implies #[trigger] word64()(e.take(k)) == Err::<
        (u64, Seq<u8>),
        _,
    >(WireFault::Truncated) by {
        assert(raw(e.len())(e.take(k)) is Err);
    }
}

/// Two encodings one behind the other, each read for itself.
proof fn lemma_chain(e: Seq<u8>, f: Seq<u8>)
    ensures
        forall|rest: Seq<u8>| #[trigger] (e + f + rest) == e + (f + rest),
        forall|k: int| 0 <= k < e.len() ==> #[trigger] (e + f).take(k) == e.take(k),
        forall|k: int|
            e.len() <= k <= e.len() + f.len() ==> #[trigger] (e + f).take(k) == e + f.take(
                k - e.len(),
            ),
{
    assert forall|rest: Seq<u8>| #[trigger] (e + f + rest) == e + (f + rest) by {
        assert(e + f + rest =~= e + (f + rest));
    }
    assert forall|k: int| 0 <= k < e.len() implies #[trigger] (e + f).take(k) == e.take(k) by {
        assert((e + f).take(k) =~= e.take(k));
    }
    assert forall|k: int| e.len() <= k <= e.len() + f.len() implies #[trigger] (e + f).take(k) == e
        + f.take(k - e.len()) by {
        assert((e + f).take(k) =~= e + f.take(k - e.len()));
    }
}

pub proof fn lemma_both<A, B>(p: Parser<A>, q: Parser<B>, e: Seq<u8>, f: Seq<u8>, a: A, b: B)
    requires
        reads_back(p, e, a),
        reads_back(q, f, b),
    ensures
        reads_back(both(p, q), e + f, (a, b)),
{
    lemma_chain(e, f);
    let g = e + f;
    assert forall|rest: Seq<u8>| #[trigger] both(p, q)(g + rest) == Ok::<_, WireFault>(
        ((a, b), rest),
    ) by {
        assert(g + rest == e + (f + rest));
        assert(p(e + (f + rest)) == Ok::<_, WireFault>((a, f + rest)));
        assert(q(f + rest) == Ok::<_, WireFault>((b, rest)));
    }
    assert forall|k: int| 0 <= k < g.len() implies #[trigger] both(p, q)(g.take(k)) == Err::<
        ((A, B), Seq<u8>),
        _,
    >(WireFault::Truncated) by {
        if k < e.len() {
            assert(g.take(k) == e.take(k));
            assert(p(e.take(k)) == Err::<(A, Seq<u8>), _>(WireFault::Truncated));
        } else {
            let part = f.take(k - e.len());
            assert(g.take(k) == e + part);
            assert(p(e + part) == Ok::<_, WireFault>((a, part)));
            assert(q(part) == Err::<(B, Seq<u8>), _>(WireFault::Truncated));
        }
    }
}

pub proof fn lemma_made<A, B>(p: Parser<A>, f: spec_fn(A) -> B, e: Seq<u8>, a: A)
    requires
        reads_back(p, e, a),
    ensures
        reads_back(made(p, f), e, f(a)),
{
    assert forall|rest: Seq<u8>| #[trigger] made(p, f)(e + rest) == Ok::<_, WireFault>(
        (f(a), rest),
    ) by {
        assert(p(e + rest) == Ok::<_, WireFault>((a, rest)));
    }
    assert forall|k: int| 0 <= k < e.len() implies #[trigger] made(p, f)(e.take(k)) == Err::<
        (B, Seq<u8>),
        _,
    >(WireFault::Truncated) by {
        assert(p(e.take(k)) == Err::<(A, Seq<u8>), _>(WireFault::Truncated));
    }
}

pub proof fn lemma_sized(v: Seq<u8>)
    requires
        v.len() <= MAX_MSG,
    ensures
        reads_back(sized(), sized_bytes(v), v),
{
    let n = v.len() as u32;
    let e = le_bytes(v.len(), 4);
    lemma_word32(n);
    lemma_raw(v);
    lemma_chain(e, v);
    let g = sized_bytes(v);
    assert forall|rest: Seq<u8>| #[trigger] sized()(g + rest) == Ok::<_, WireFault>((v, rest)) by {
        assert(g + rest == e + (v + rest));
        assert(word32()(e + (v + rest)) == Ok::<_, WireFault>((n, v + rest)));
        assert(raw(v.len())(v + rest) == Ok::<_, WireFault>((v, rest)));
    }
    assert forall|k: int| 0 <= k < g.len() implies #[trigger] sized()(g.take(k)) == Err::<
        (Seq<u8>, Seq<u8>),
        _,
    >(WireFault::Truncated) by {
        if k < e.len() {
            assert(g.take(k) == e.take(k));
            assert(word32()(e.take(k)) == Err::<(u32, Seq<u8>), _>(WireFault::Truncated));
        } else {
            let part = v.take(k - e.len());
            assert(g.take(k) == e + part);
            assert(word32()(e + part) == Ok::<_, WireFault>((n, part)));
            assert(raw(v.len())(part) == Err::<(Seq<u8>, Seq<u8>), _>(WireFault::Truncated));
        }
    }
}

pub proof fn lemma_utf8(t: Seq<char>)
    requires
        encode_utf8(t).len() <= MAX_MSG,
    ensures
        reads_back(utf8(), sized_bytes(encode_utf8(t)), t),
{
    let v = encode_utf8(t);
    lemma_sized(v);
    vstd::utf8::encode_utf8_valid_utf8(t);
    vstd::utf8::encode_utf8_decode_utf8(t);
    let g = sized_bytes(v);
    assert forall|rest: Seq<u8>| #[trigger] utf8()(g + rest) == Ok::<_, WireFault>((t, rest)) by {
        assert(sized()(g + rest) == Ok::<_, WireFault>((v, rest)));
    }
    assert forall|k: int| 0 <= k < g.len() implies #[trigger] utf8()(g.take(k)) == Err::<
        (Seq<char>, Seq<u8>),
        _,
    >(WireFault::Truncated) by {
        assert(sized()(g.take(k)) == Err::<(Seq<u8>, Seq<u8>), _>(WireFault::Truncated));
    }
}

/// Encodings one behind the other.
pub open spec fn joined<T>(enc: spec_fn(T) -> Seq<u8>, list: Seq<T>) -> Seq<u8>
    decreases list.len(),
{
    if list.len() == 0 {
        Seq::empty()
    } else {
        enc(list[0]) + joined(enc, list.drop_first())
    }
}

/// The number of values in four bytes, then their encodings.
pub open spec fn listed<T>(enc: spec_fn(T) -> Seq<u8>, list: Seq<T>) -> Seq<u8> {
    le_bytes(list.len(), 4) + joined(enc, list)
}

proof fn lemma_times<T>(p: Parser<T>, enc: spec_fn(T) -> Seq<u8>, list: Seq<T>)
    requires
        forall|i: int| 0 <= i < list.len() ==> reads_back(p, enc(#[trigger] list[i]), list[i]),
    ensures
        forall|rest: Seq<u8>| #[trigger]
            times(p, joined(enc, list) + rest, list.len()) == Ok::<_, WireFault>((list, rest)),
        forall|k: int|
            0 <= k < joined(enc, list).len() ==> #[trigger] times(
                p,
                joined(enc, list).take(k),
                list.len(),
            ) == Err::<(Seq<T>, Seq<u8>), _>(WireFault::Truncated),
    decreases list.len(),
{
    let g = joined(enc, list);
    if list.len() == 0 {
        assert forall|rest: Seq<u8>| #[trigger] times(p, g + rest, list.len()) == Ok::<
            _,
            WireFault,
        >((list, rest)) by {
            assert(g + rest =~= rest);
            assert(list =~= Seq::empty());
        }
    } else {
        let tail = list.drop_first();
        let x = list[0];
        let e = enc(x);
        let f = joined(enc, tail);
        assert forall|i: int| 0 <= i < tail.len() implies reads_back(
            p,
            enc(#[trigger] tail[i]),
            tail[i],
        ) by {
            assert(tail[i] == list[i + 1]);
        }
        lemma_times(p, enc, tail);
        lemma_chain(e, f);
        assert(reads_back(p, enc(list[0]), list[0]));
        assert(seq![x] + tail =~= list);
        assert forall|rest: Seq<u8>| #[trigger] times(p, g + rest, list.len()) == Ok::<
            _,
            WireFault,
        >((list, rest)) by {
            assert(g + rest == e + (f + rest));
            assert(p(e + (f + rest)) == Ok::<_, WireFault>((x, f + rest)));
            assert(times(p, f + rest, tail.len()) == Ok::<_, WireFault>((tail, rest)));
        }
        assert forall|k: int| 0 <= k < g.len() implies #[trigger] times(p, g.take(k), list.len())
            == Err::<(Seq<T>, Seq<u8>), _>(WireFault::Truncated) by {
            if k < e.len() {
                assert(g.take(k) == e.take(k));
                assert(p(e.take(k)) == Err::<(T, Seq<u8>), _>(WireFault::Truncated));
            } else {
                let part = f.take(k - e.len());
                assert(g.take(k) == e + part);
                assert(p(e + part) == Ok::<_, WireFault>((x, part)));
                assert(times(p, part, tail.len()) == Err::<(Seq<T>, Seq<u8>), _>(
                    WireFault::Truncated,
                ));
            }
        }
    }
}

pub proof fn lemma_counted<T>(p: Parser<T>, enc: spec_fn(T) -> Seq<u8>, list: Seq<T>, max: nat)
    requires
        forall|i: int| 0 <= i < list.len() ==> reads_back(p, enc(#[trigger] list[i]), list[i]),
        list.len() <= max <= u32::MAX,
    ensures
        reads_back(counted(p, max), listed(enc, list), list),
{
    let n = list.len() as u32;
    let e = le_bytes(list.len(), 4);
    let f = joined(enc, list);
    let g = listed(enc, list);
    lemma_word32(n);
    lemma_times(p, enc, list);
    lemma_chain(e, f);
    let q = counted(p, max);
    assert forall|rest: Seq<u8>| #[trigger] q(g + rest) == Ok::<_, WireFault>((list, rest)) by {
        assert(g + rest == e + (f + rest));
        assert(word32()(e + (f + rest)) == Ok::<_, WireFault>((n, f + rest)));
        assert(times(p, f + rest, list.len()) == Ok::<_, WireFault>((list, rest)));
    }
    assert forall|k: int| 0 <= k < g.len() implies #[trigger] q(g.take(k)) == Err::<
        (Seq<T>, Seq<u8>),
        _,
    >(WireFault::Truncated) by {
        if k < e.len() {
            assert(g.take(k) == e.take(k));
            assert(word32()(e.take(k)) == Err::<(u32, Seq<u8>), _>(WireFault::Truncated));
        } else {
            let part = f.take(k - e.len());
            assert(g.take(k) == e + part);
            assert(word32()(e + part) == Ok::<_, WireFault>((n, part)));
            assert(times(p, part, list.len()) == Err::<(Seq<T>, Seq<u8>), _>(
                WireFault::Truncated,
            ));
        }
    }
}

// ---------------------------------------------------------------------------
// what is read is an encoding
// ---------------------------------------------------------------------------

/// Whether a value has one encoding only: whatever is read off the front of a
/// byte string is exactly the encoding of the value that it gives.
pub open spec fn canonical<T>(p: Parser<T>, enc: spec_fn(T) -> Seq<u8>) -> bool {
    forall|s: Seq<u8>|
        match #[trigger] p(s) {
            Ok((x, rest)) => s == enc(x) + rest,
            Err(_) => true,
        }
}

pub proof fn lemma_raw_canonical(n: nat)
    ensures
        canonical(raw(n), |b: Seq<u8>| b),
{
    assert forall|s: Seq<u8>|
        match #[trigger] raw(n)(s) {
            Ok((x, rest)) => s == x + rest,
            Err(_) => true,
        } by {
        if s.len() >= n {
            assert(s.take(n as int) + s.skip(n as int) =~= s);
        }
    }
}

pub proof fn lemma_word32_canonical()
    ensures
        canonical(word32(), |v: u32| le_bytes(v as nat, 4)),
{
    lemma_pow256();
    assert forall|s: Seq<u8>|
        match #[trigger] word32()(s) {
            Ok((x, rest)) => s == le_bytes(x as nat, 4) + rest,
            Err(_) => true,
        } by {
        if s.len() >= 4 {
            lemma_le_value_bound(s.take(4));
            assert(s.take(4) + s.skip(4) =~= s);
        }
    }
}

pub proof fn lemma_word64_canonical()
    ensures
        canonical(word64(), |v: u64| le_bytes(v as nat, 8)),
{
    lemma_pow256();
    assert forall|s: Seq<u8>|
        match #[trigger] word64()(s) {
            Ok((x, rest)) => s == le_bytes(x as nat, 8) + rest,
            Err(_) => true,
        } by {
        if s.len() >= 8 {
            lemma_le_value_bound(s.take(8));
            assert(s.take(8) + s.skip(8) =~= s);
        }
    }
}

pub proof fn lemma_sized_canonical()
    ensures
        canonical(sized(), |b: Seq<u8>| sized_bytes(b)),
{
    lemma_word32_canonical();
    assert forall|s: Seq<u8>|
        match #[trigger] sized()(s) {
            Ok((x, rest)) => s == sized_bytes(x) + rest,
            Err(_) => true,
        } by {
        if sized()(s) is Ok {
            let (n, more) = word32()(s)->Ok_0;
            let (x, rest) = sized()(s)->Ok_0;
            assert(more =~= x + rest);
            assert(s =~= sized_bytes(x) + rest);
        }
    }
}

pub proof fn lemma_utf8_canonical()
    ensures
        canonical(utf8(), |t: Seq<char>| sized_bytes(encode_utf8(t))),
{
    lemma_sized_canonical();
    assert forall|s: Seq<u8>|
        match #[trigger] utf8()(s) {
            Ok((x, rest)) => s == sized_bytes(encode_utf8(x)) + rest,
            Err(_) => true,
        } by {
        if utf8()(s) is Ok {
            let (b, rest) = sized()(s)->Ok_0;
            vstd::utf8::decode_utf8_encode_utf8(b);
        }
    }
}

pub proof fn lemma_both_canonical<A, B>(
    p: Parser<A>,
    q: Parser<B>,
    f: spec_fn(A) -> Seq<u8>,
    g: spec_fn(B) -> Seq<u8>,
)
    requires
        canonical(p, f),
        canonical(q, g),
    ensures
        canonical(both(p, q), |x: (A, B)| f(x.0) + g(x.1)),
{
    assert forall|s: Seq<u8>|
        match #[trigger] both(p, q)(s) {
            Ok((x, rest)) => s == f(x.0) + g(x.1) + rest,
            Err(_) => true,
        } by {
        if both(p, q)(s) is Ok {
            let (a, more) = p(s)->Ok_0;
            let (b, rest) = q(more)->Ok_0;
            assert(f(a) + (g(b) + rest) =~= f(a) + g(b) + rest);
        }
    }
}

/// Values one behind the other.
proof fn lemma_times_canonical<T>(p: Parser<T>, enc: spec_fn(T) -> Seq<u8>, s: Seq<u8>, n: nat)
    requires
        canonical(p, enc),
    ensures
        match times(p, s, n) {
            Ok((v, rest)) => v.len() == n && s == joined(enc, v) + rest,
            Err(_) => true,
        },
    decreases n,
{
    if n == 0 {
        assert(joined(enc, Seq::empty()) + s =~= s);
    } else if p(s) is Ok {
        let (x, more) = p(s)->Ok_0;
        lemma_times_canonical(p, enc, more, (n - 1) as nat);
        if times(p, more, (n - 1) as nat) is Ok {
            let (v, rest) = times(p, more, (n - 1) as nat)->Ok_0;
            let all = seq![x] + v;
            assert(all.drop_first() =~= v);
            assert(enc(x) + (joined(enc, v) + rest) =~= joined(enc, all) + rest);
        }
    }
}

pub proof fn lemma_counted_canonical<T>(p: Parser<T>, enc: spec_fn(T) -> Seq<u8>, max: nat)
    requires
        canonical(p, enc),
    ensures
        canonical(counted(p, max), |v: Seq<T>| listed(enc, v)),
{
    lemma_word32_canonical();
    assert forall|s: Seq<u8>|
        match #[trigger] counted(p, max)(s) {
            Ok((v, rest)) => s == listed(enc, v) + rest,
            Err(_) => true,
        } by {
        if counted(p, max)(s) is Ok {
            let (n, more) = word32()(s)->Ok_0;
            let (v, rest) = counted(p, max)(s)->Ok_0;
            lemma_times_canonical(p, enc, more, n as nat);
            assert(s =~= listed(enc, v) + rest);
        }
    }
}

// ---------------------------------------------------------------------------
// reader
// ---------------------------------------------------------------------------

/// A byte string that is being read; its view is what was not read yet.
#[derive(Debug)]
pub struct Reader<'a> {
    b: &'a [u8],
    pos: usize,
}

impl<'a> View for Reader<'a> {
    type V = Seq<u8>;

    closed spec fn view(&self) -> Seq<u8> {
        self.b@.skip(self.pos as int)
    }
}

impl<'a> Reader<'a> {
    #[verifier::type_invariant]
    spec fn inv(self) -> bool {
        self.pos <= self.b@.len()
    }

    /// Starts at the front of `b`.
    pub fn new(b: &'a [u8]) -> (r: Self)
        ensures
            r@ == b@,
    {
        let r = Reader { b, pos: 0 };
        assert(r@ =~= b@);
        r
    }

    /// The number of bytes that were not read yet.
    pub fn left(&self) -> (r: usize)
        ensures
            r == self@.len(),
    {
        proof {
            use_type_invariant(self);
        }
        self.b.len() - self.pos
    }

    /// Reads `n` bytes. Where there are fewer, reads none.
    pub fn take(&mut self, n: usize) -> (r: Result<&'a [u8], WireFault>)
        ensures
            match raw(n as nat)(old(self)@) {
                Ok((v, rest)) => (r matches Ok(s) && s@ == v) && final(self)@ == rest,
                Err(e) => r == Err::<&'a [u8], WireFault>(e) && final(self)@ == old(self)@,
            },
    {
        proof {
            use_type_invariant(&*self);
        }
        if n > self.b.len() - self.pos {
            return Err(WireFault::Truncated);
        }
        let s: &'a [u8] = vstd::slice::slice_subrange(self.b, self.pos, self.pos + n);
        let ghost before = self@;
        self.pos = self.pos + n;
        assert(s@ =~= before.take(n as int));
        assert(self@ =~= before.skip(n as int));
        Ok(s)
    }

    /// Reads everything that is left.
    pub fn drain(&mut self)
        ensures
            final(self)@ == Seq::<u8>::empty(),
    {
        self.pos = self.b.len();
        assert(self@ =~= Seq::<u8>::empty());
    }

    /// Reads four bytes as a number.
    pub fn u32(&mut self) -> (r: Result<u32, WireFault>)
        ensures
            match word32()(old(self)@) {
                Ok((v, rest)) => r == Ok::<u32, WireFault>(v) && final(self)@ == rest,
                Err(e) => r == Err::<u32, WireFault>(e) && final(self)@ == old(self)@,
            },
    {
        let s: &[u8] = match self.take(4) {
            Ok(s) => s,
            Err(e) => {
                return Err(e);
            },
        };
        let v: u32 = s[0] as u32 + 256 * s[1] as u32 + 65536 * s[2] as u32 + 16777216 * s[3] as u32;
        proof {
            let t = s@;
            reveal_with_fuel(le_value, 5);
            assert(t.drop_first().drop_first().drop_first().drop_first() =~= Seq::empty());
        }
        Ok(v)
    }

    /// Reads eight bytes as a number.
    pub fn u64(&mut self) -> (r: Result<u64, WireFault>)
        ensures
            match word64()(old(self)@) {
                Ok((v, rest)) => r == Ok::<u64, WireFault>(v) && final(self)@ == rest,
                Err(e) => r == Err::<u64, WireFault>(e) && final(self)@ == old(self)@,
            },
    {
        let s: &[u8] = match self.take(8) {
            Ok(s) => s,
            Err(e) => {
                return Err(e);
            },
        };
        let ghost t = s@;
        proof {
            lemma_pow256();
            lemma_le_value_bound(t);
        }
        let mut v: u64 = 0;
        let mut k: usize = 8;
        assert(t.skip(8) =~= Seq::empty());
        while k > 0
            invariant
                k <= 8,
                t == s@,
                t.len() == 8,
                v == le_value(t.skip(k as int)),
                crate::bytes::pow256(8) == 0x1_0000_0000_0000_0000,
            decreases k,
        {
            proof {
                let u = t.skip(k - 1);
                assert(u.drop_first() =~= t.skip(k as int));
                assert(u[0] == t[k - 1]);
                lemma_le_value_bound(u);
                lemma_pow256_grows(u.len(), 8);
            }
            v = s[k - 1] as u64 + 256 * v;
            k = k - 1;
        }
        assert(t.skip(0) =~= t);
        Ok(v)
    }

    /// Reads a byte string behind its length.
    pub fn bytes(&mut self) -> (r: Result<Vec<u8>, WireFault>)
        ensures
            match sized()(old(self)@) {
                Ok((v, rest)) => (r matches Ok(b) && b@ == v) && final(self)@ == rest,
                Err(e) => r == Err::<Vec<u8>, WireFault>(e),
            },
    {
        let n: u32 = match self.u32() {
            Ok(n) => n,
            Err(e) => {
                return Err(e);
            },
        };
        let l: usize = n as usize;
        if l > MAX_MSG {
            return Err(WireFault::TooLarge);
        }
        match self.take(l) {
            Ok(s) => Ok(copy_bytes(s)),
            Err(e) => Err(e),
        }
    }

    /// Reads a text behind its length.
    pub fn text(&mut self) -> (r: Result<String, WireFault>)
        ensures
            match utf8()(old(self)@) {
                Ok((v, rest)) => (r matches Ok(t) && t@ == v) && final(self)@ == rest,
                Err(e) => r == Err::<String, WireFault>(e),
            },
    {
        match self.bytes() {
            Ok(b) => match text_from_utf8(b) {
                Some(t) => Ok(t),
                None => Err(WireFault::Truncated),
            },
            Err(e) => Err(e),
        }
    }

    /// Reads 32 bytes.
    pub fn array_32(&mut self) -> (r: Result<[u8; 32], WireFault>)
        ensures
            match raw(32)(old(self)@) {
                Ok((v, rest)) => (r matches Ok(b) && b@ == v) && final(self)@ == rest,
                Err(e) => r == Err::<[u8; 32], WireFault>(e) && final(self)@ == old(self)@,
            },
    {
        match self.take(32) {
            Ok(s) => Ok(to_array_32(s)),
            Err(e) => Err(e),
        }
    }

    /// Reads a number of values and checks it against a cap.
    pub fn count(&mut self, max: usize) -> (r: Result<usize, WireFault>)
        ensures
            match word32()(old(self)@) {
                Ok((n, rest)) => if n > max {
                    r == Err::<usize, WireFault>(WireFault::TooLarge)
                } else {
                    r == Ok::<usize, WireFault>(n as usize) && final(self)@ == rest
                },
                Err(e) => r == Err::<usize, WireFault>(e),
            },
    {
        match self.u32() {
            Ok(n) => {
                let l: usize = n as usize;
                if l > max {
                    Err(WireFault::TooLarge)
                } else {
                    Ok(l)
                }
            },
            Err(e) => Err(e),
        }
    }
}

proof fn lemma_pow256_grows(m: nat, n: nat)
    requires
        m <= n,
    ensures
        crate::bytes::pow256(m) <= crate::bytes::pow256(n),
    decreases n,
{
    if m < n {
        lemma_pow256_grows(m, (n - 1) as nat);
    }
}

} // verus!
