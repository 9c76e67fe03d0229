//! Digests and hexadecimal text.
use vstd::prelude::*;

verus! {

/// The SHA-256 digest of a byte string, as `sha2::Sha256::digest` computes it.
pub uninterp spec fn sha256_of(data: Seq<u8>) -> Seq<u8>;

/// The double SHA-256 digest of a byte string, as
/// `bitcoin::hashes::sha256d::Hash::hash` computes it.
pub uninterp spec fn sha256d_of(data: Seq<u8>) -> Seq<u8>;

/// Calls `sha2::Sha256::digest`: a digest of 32 bytes, a function of the data
/// alone.
#[verifier::external_body]
pub(crate) fn sha256(data: &[u8]) -> (r: [u8; 32])
    ensures
        r@ == sha256_of(data@),
{
    <sha2::Sha256 as sha2::Digest>::digest(data).into()
}

/// Calls `bitcoin::hashes::sha256d::Hash::hash`: a digest of 32 bytes, a
/// function of the data alone.
#[verifier::external_body]
pub(crate) fn sha256d(data: &[u8]) -> (r: [u8; 32])
    ensures
        r@ == sha256d_of(data@),
{
    bitcoin::hashes::Hash::to_byte_array(
        <bitcoin::hashes::sha256d::Hash as bitcoin::hashes::Hash>::hash(data),
    )
}

/// The lower-case hexadecimal digit of a number below sixteen.
pub open spec fn hex_digit(n: int) -> char {
    if n < 10 {
        (48 + n) as char
    } else {
        (87 + n) as char
    }
}

/// A byte string in lower-case hexadecimal, two digits a byte.
pub open spec fn hex_of(data: Seq<u8>) -> Seq<char> {
    Seq::new(
        2 * data.len(),
        |i: int|
            if i % 2 == 0 {
                hex_digit(data[i / 2] as int / 16)
            } else {
                hex_digit(data[i / 2] as int % 16)
            },
    )
}

/// The value of a hexadecimal digit of either case.
pub open spec fn hex_value(c: char) -> Option<int> {
    if '0' <= c <= '9' {
        Some(c as int - 48)
    } else if 'a' <= c <= 'f' {
        Some(c as int - 87)
    } else if 'A' <= c <= 'F' {
        Some(c as int - 55)
    } else {
        None
    }
}

/// Whether a text is hexadecimal: digits only, an even number of them.
pub open spec fn is_hex(s: Seq<char>) -> bool {
    s.len() % 2 == 0 && forall|i: int| 0 <= i < s.len() ==> hex_value(#[trigger] s[i]) is Some
}

/// The byte string that a hexadecimal text names.
pub open spec fn unhex(s: Seq<char>) -> Seq<u8> {
    Seq::new(
        s.len() / 2,
        |i: int| (16 * hex_value(s[2 * i])->0 + hex_value(s[2 * i + 1])->0) as u8,
    )
}

/// Calls `hex::encode`: two lower-case hexadecimal digits a byte, the high half
/// first.
#[verifier::external_body]
pub(crate) fn hex_text(data: &[u8]) -> (r: String)
    ensures
        r@ == hex_of(data@),
{
    hex::encode(data)
}

/// Calls `hex::decode`: succeeds exactly on an even number of hexadecimal
/// digits of either case, and returns the bytes that they name.
#[verifier::external_body]
pub(crate) fn hex_bytes(s: &str) -> (r: Option<Vec<u8>>)
    ensures
        r is Some <==> is_hex(s@),
        r matches Some(v) ==> v@ == unhex(s@),
{
    hex::decode(s).ok()
}

/// Hexadecimal text reads back as the bytes that it was made from.
pub proof fn lemma_hex_round_trip(data: Seq<u8>)
    ensures
        is_hex(hex_of(data)),
        unhex(hex_of(data)) == data,
{
    let s = hex_of(data);
    assert forall|i: int| 0 <= i < s.len() implies hex_value(#[trigger] s[i]) is Some by {
        lemma_hex_digit(data[i / 2] as int / 16);
        lemma_hex_digit(data[i / 2] as int % 16);
    }
    assert forall|i: int| 0 <= i < data.len() implies unhex(s)[i] == #[trigger] data[i] by {
        lemma_hex_digit(data[i] as int / 16);
        lemma_hex_digit(data[i] as int % 16);
        assert((2 * i) / 2 == i && (2 * i + 1) / 2 == i);
        assert(s[2 * i] == hex_digit(data[i] as int / 16));
        assert(s[2 * i + 1] == hex_digit(data[i] as int % 16));
    }
    assert(unhex(s) =~= data);
}

/// Distinct byte strings have distinct hexadecimal texts.
pub proof fn lemma_hex_injective(a: Seq<u8>, b: Seq<u8>)
    requires
        hex_of(a) == hex_of(b),
    ensures
        a == b,
{
    lemma_hex_round_trip(a);
    lemma_hex_round_trip(b);
}

proof fn lemma_hex_digit(n: int)
    requires
        0 <= n < 16,
    ensures
        hex_value(hex_digit(n)) == Some(n),
        !crate::text::is_white(hex_digit(n)),
{
}

/// Hexadecimal text holds no white space.
pub proof fn lemma_hex_no_white(data: Seq<u8>)
    ensures
        forall|i: int|
            0 <= i < hex_of(data).len() ==> !crate::text::is_white(#[trigger] hex_of(data)[i]),
{
    assert forall|i: int| 0 <= i < hex_of(data).len() implies !crate::text::is_white(
        #[trigger] hex_of(data)[i],
    ) by {
        lemma_hex_digit(data[i / 2] as int / 16);
        lemma_hex_digit(data[i / 2] as int % 16);
    }
}

} // verus!
