//! Byte strings: little-endian integers, appending, copying and comparing.
use vstd::prelude::*;

verus! {

/// The `n` low-order base-256 digits of `v`, least significant first.
pub open spec fn le_bytes(v: nat, n: nat) -> Seq<u8>
    decreases n,
{
    if n == 0 {
        Seq::empty()
    } else {
        seq![(v % 256) as u8] + le_bytes(v / 256, (n - 1) as nat)
    }
}

/// The number whose base-256 digits, least significant first, are `s`.
pub open spec fn le_value(s: Seq<u8>) -> nat
    decreases s.len(),
{
    if s.len() == 0 {
        0
    } else {
        s[0] as nat + 256 * le_value(s.drop_first())
    }
}

/// `256` to the power `n`.
pub open spec fn pow256(n: nat) -> nat
    decreases n,
{
    if n == 0 {
        1
    } else {
        256 * pow256((n - 1) as nat)
    }
}

pub proof fn lemma_pow256()
    ensures
        pow256(4) == 0x1_0000_0000,
        pow256(8) == 0x1_0000_0000_0000_0000,
{
    reveal_with_fuel(pow256, 9);
}

pub proof fn lemma_le_bytes_len(v: nat, n: nat)
    ensures
        le_bytes(v, n).len() == n,
    decreases n,
{
    if n > 0 {
        lemma_le_bytes_len(v / 256, (n - 1) as nat);
    }
}

/// Reading back the `n` digits of a number below `256^n` gives the number.
pub proof fn lemma_le_round_trip(v: nat, n: nat)
    requires
        v < pow256(n),
    ensures
        le_value(le_bytes(v, n)) == v,
        le_bytes(v, n).len() == n,
    decreases n,
{
    if n > 0 {
        lemma_le_round_trip(v / 256, (n - 1) as nat);
        let s = le_bytes(v, n);
        assert(s.drop_first() =~= le_bytes(v / 256, (n - 1) as nat));
        assert(s[0] == (v % 256) as u8);
    }
}

/// `n` digits name a number below `256^n`, and the number names the digits.
pub proof fn lemma_le_value_bound(s: Seq<u8>)
    ensures
        le_value(s) < pow256(s.len()),
        le_bytes(le_value(s), s.len()) == s,
    decreases s.len(),
{
    if s.len() > 0 {
        lemma_le_value_bound(s.drop_first());
        let v = le_value(s);
        assert(v % 256 == s[0] as nat);
        assert(v / 256 == le_value(s.drop_first()));
        assert(le_bytes(v, s.len()) =~= s);
    } else {
        assert(le_bytes(le_value(s), 0) =~= s);
    }
}

/// Only the low `n` digits of a number show in `le_bytes`.
pub proof fn lemma_le_bytes_mod(v: nat, n: nat)
    ensures
        le_bytes(v % pow256(n), n) == le_bytes(v, n),
    decreases n,
{
    if n > 0 {
        let m = (n - 1) as nat;
        let p = pow256(m);
        assert(pow256(n) == 256 * p);
        lemma_pow256_positive(m);
        vstd::arithmetic::div_mod::lemma_mod_breakdown(v as int, 256, p as int);
        let w = v % (256 * p);
        let q = (v / 256) % p;
        assert(w == 256 * q + v % 256);
        assert(w % 256 == v % 256);
        assert(w / 256 == q);
        lemma_le_bytes_mod(v / 256, m);
    }
}

pub proof fn lemma_pow256_positive(n: nat)
    ensures
        pow256(n) > 0,
    decreases n,
{
    if n > 0 {
        lemma_pow256_positive((n - 1) as nat);
    }
}

/// The low 32 bits of a length, as the wire formats write it.
pub fn len_u32(n: usize) -> (r: u32)
    ensures
        r as nat == n as nat % 0x1_0000_0000,
{
    let wide: u64 = n as u64;
    (wide % 0x1_0000_0000) as u32
}

/// Appends the bytes of `s`.
pub fn push_slice(o: &mut Vec<u8>, s: &[u8])
    ensures
        final(o)@ == old(o)@ + s@,
{
    o.extend_from_slice(s);
    assert(o@ =~= old(o)@ + s@);
}

/// Appends `v` as four bytes, least significant first.
pub fn push_u32(o: &mut Vec<u8>, v: u32)
    ensures
        final(o)@ == old(o)@ + le_bytes(v as nat, 4),
{
    reveal_with_fuel(le_bytes, 5);
    o.push((v % 256) as u8);
    o.push((v / 256 % 256) as u8);
    o.push((v / 65536 % 256) as u8);
    o.push((v / 16777216) as u8);
    assert(o@ =~= old(o)@ + le_bytes(v as nat, 4));
}

/// Appends `v` as eight bytes, least significant first.
pub fn push_u64(o: &mut Vec<u8>, v: u64)
    ensures
        final(o)@ == old(o)@ + le_bytes(v as nat, 8),
{
    let ghost before = o@;
    let mut rest: u64 = v;
    let mut k: u32 = 0;
    assert(before + le_bytes(v as nat, 8) =~= o@ + le_bytes(rest as nat, 8));
    while k < 8
        invariant
            k <= 8,
            before + le_bytes(v as nat, 8) == o@ + le_bytes(rest as nat, (8 - k) as nat),
        decreases 8 - k,
    {
        let ghost prior = o@;
        o.push((rest % 256) as u8);
        proof {
            assert(prior + le_bytes(rest as nat, (8 - k) as nat) =~= o@ + le_bytes(
                (rest / 256) as nat,
                (8 - k - 1) as nat,
            ));
        }
        rest = rest / 256;
        k = k + 1;
    }
    assert(o@ + le_bytes(rest as nat, 0) =~= o@);
}

/// Appends the length of `v` as four bytes, then `v` itself.
pub fn push_bytes(o: &mut Vec<u8>, v: &[u8])
    ensures
        final(o)@ == old(o)@ + sized_bytes(v@),
{
    push_u32(o, len_u32(v.len()));
    push_slice(o, v);
    proof {
        lemma_pow256();
        lemma_le_bytes_mod(v@.len(), 4);
    }
    assert(o@ =~= old(o)@ + sized_bytes(v@));
}

/// A byte string behind its length in four bytes.
pub open spec fn sized_bytes(v: Seq<u8>) -> Seq<u8> {
    le_bytes(v.len(), 4) + v
}

/// Whether two byte strings are equal.
pub fn same_bytes(a: &[u8], b: &[u8]) -> (r: bool)
    ensures
        r == (a@ == b@),
{
    if a.len() != b.len() {
        return false;
    }
    let mut i: usize = 0;
    while i < a.len()
        invariant
            i <= a@.len(),
            a@.len() == b@.len(),
            forall|j: int| 0 <= j < i ==> a@[j] == b@[j],
        decreases a@.len() - i,
    {
        if a[i] != b[i] {
            return false;
        }
        i = i + 1;
    }
    assert(a@ =~= b@);
    true
}

/// A copy of a byte string.
pub fn copy_bytes(a: &[u8]) -> (r: Vec<u8>)
    ensures
        r@ == a@,
{
    let mut out: Vec<u8> = Vec::new();
    push_slice(&mut out, a);
    assert(out@ =~= a@);
    out
}

/// The first 32 bytes of a string that has 32.
pub fn to_array_32(s: &[u8]) -> (r: [u8; 32])
    requires
        s@.len() == 32,
    ensures
        r@ == s@,
{
    let mut a: [u8; 32] = [0u8; 32];
    let mut i: usize = 0;
    while i < 32
        invariant
            i <= 32,
            s@.len() == 32,
            forall|j: int| 0 <= j < i ==> a@[j] == s@[j],
        decreases 32 - i,
    {
        a[i] = s[i];
        i = i + 1;
    }
    assert(a@ =~= s@);
    a
}

} // verus!
