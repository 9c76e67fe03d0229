//! Signatures: algorithms, what checking and making one comes to, and the
//! record of the signatures that were found to hold.
use vstd::prelude::*;

use crate::assoc::lemma_push_set;
use crate::bytes::{copy_bytes, same_bytes};
use crate::text::copy_text;

verus! {

/// Signature algorithms supported at genesis. Both are NIST FIPS standards.
#[derive(Debug, Clone, Copy, PartialEq, Eq, Structural)]
pub enum SigAlgo {
    /// ML-DSA-44 (FIPS 204): compact signatures, fast verification.
    MlDsa44,
    /// SLH-DSA-SHA2-128s (FIPS 205): larger signatures, hash-based security.
    SlhDsaSha2_128s,
}

/// Errors of the signature layer.
#[derive(Debug, Clone, Copy, PartialEq, Eq, Structural)]
pub enum PqBitError {
    SignatureRejected,
    UnsupportedAlgorithm,
    MalformedTransaction,
}

impl PqBitError {
    /// The error in words.
    pub open spec fn words(self) -> Seq<char> {
        match self {
            PqBitError::SignatureRejected => "PQ signature rejected"@,
            PqBitError::UnsupportedAlgorithm => "unsupported signature algorithm"@,
            PqBitError::MalformedTransaction => "malformed transaction"@,
        }
    }

    /// The error in words.
    pub fn describe(&self) -> (r: String)
        ensures
            r@ == self.words(),
    {
        match self {
            PqBitError::SignatureRejected => copy_text("PQ signature rejected"),
            PqBitError::UnsupportedAlgorithm => copy_text("unsupported signature algorithm"),
            PqBitError::MalformedTransaction => copy_text("malformed transaction"),
        }
    }
}

/// What checking a signature comes to, from whether the key and the signature
/// have the form that the algorithm asks for and whether the check passed.
pub fn verify_verdict(key_parses: bool, signature_parses: bool, passes: bool) -> (r: Result<
    bool,
    PqBitError,
>)
    ensures
        r == (if key_parses && signature_parses {
            Ok::<bool, PqBitError>(passes)
        } else {
            Err::<bool, PqBitError>(PqBitError::MalformedTransaction)
        }),
{
    if !key_parses || !signature_parses {
        return Err(PqBitError::MalformedTransaction);
    }
    Ok(passes)
}

/// What making a signature comes to, from whether the key has the form that
/// the algorithm asks for and the signature, if one was made.
pub fn sign_outcome(key_parses: bool, signature: Option<Vec<u8>>) -> (r: Result<
    Vec<u8>,
    PqBitError,
>)
    ensures
        r == (if !key_parses {
            Err::<Vec<u8>, PqBitError>(PqBitError::MalformedTransaction)
        } else {
            match signature {
                Some(s) => Ok::<Vec<u8>, PqBitError>(s),
                None => Err::<Vec<u8>, PqBitError>(PqBitError::SignatureRejected),
            }
        }),
{
    if !key_parses {
        return Err(PqBitError::MalformedTransaction);
    }
    match signature {
        Some(s) => Ok(s),
        None => Err(PqBitError::SignatureRejected),
    }
}

/// A serialized verifying key.
#[derive(Debug)]
pub struct PublicKey {
    pub bytes: Vec<u8>,
}

/// A serialized signing key.
#[derive(Debug)]
pub struct SecretKey {
    pub bytes: Vec<u8>,
}

/// A verifying key and the signing key that goes with it.
#[derive(Debug)]
pub struct KeyPair {
    pub public_key: PublicKey,
    pub secret_key: SecretKey,
}

/// What key generation comes to, from the serialized keys, if any were made.
pub fn keygen_outcome(keys: Option<(Vec<u8>, Vec<u8>)>) -> (r: Result<KeyPair, PqBitError>)
    ensures
        match keys {
            Some((public, secret)) => r == Ok::<KeyPair, PqBitError>(
                KeyPair {
                    public_key: PublicKey { bytes: public },
                    secret_key: SecretKey { bytes: secret },
                },
            ),
            None => r == Err::<KeyPair, PqBitError>(PqBitError::UnsupportedAlgorithm),
        },
{
    match keys {
        Some((public, secret)) => Ok(
            KeyPair {
                public_key: PublicKey { bytes: public },
                secret_key: SecretKey { bytes: secret },
            },
        ),
        None => Err(PqBitError::UnsupportedAlgorithm),
    }
}

/// The number of random bytes that key generation starts from.
pub const KEYGEN_ENTROPY: usize = 128;

/// Calls `try_fill_bytes` of `rand::rngs::OsRng`, which fills the whole array
/// with random bytes of the operating system or fails. Nothing is said of the
/// bytes, nor of when it fails.
#[verifier::external_body]
fn os_random() -> (r: Option<[u8; 128]>)
{
    let mut entropy = [0u8; 128];
    rand::RngCore::try_fill_bytes(&mut rand::rngs::OsRng, &mut entropy).ok()?;
    Some(entropy)
}

/// What a key generator is asked for: an algorithm and the randomness to use.
#[derive(Debug)]
pub struct KeygenRequest {
    pub algo: SigAlgo,
    pub entropy: Vec<u8>,
}

/// The request for a fresh key pair; none where the operating system has no
/// randomness to give.
pub fn keygen_request(algo: SigAlgo) -> (r: Option<KeygenRequest>)
    ensures
        r matches Some(q) ==> q.algo == algo && q.entropy@.len() == KEYGEN_ENTROPY,
{
    request_from(algo, os_random())
}

/// The request that a draw of randomness comes to: one with exactly the bytes
/// that were drawn, and none exactly where nothing was.
pub fn request_from(algo: SigAlgo, drawn: Option<[u8; 128]>) -> (r: Option<KeygenRequest>)
    ensures
        match drawn {
            Some(bytes) => r matches Some(q) && q.algo == algo && q.entropy@ == bytes@,
            None => r is None,
        },
{
    match drawn {
        Some(bytes) => Some(request_with(algo, &bytes)),
        None => None,
    }
}

/// The request for a key pair made from the given random bytes.
pub fn request_with(algo: SigAlgo, bytes: &[u8; 128]) -> (r: KeygenRequest)
    ensures
        r.algo == algo,
        r.entropy@ == bytes@,
{
    KeygenRequest { algo, entropy: copy_bytes(bytes.as_slice()) }
}

// ---------------------------------------------------------------------------
// claims
// ---------------------------------------------------------------------------

/// The claim that a signature holds for a message under a key (ML-DSA-44, the
/// algorithm that spends are authorized with).
#[derive(Debug)]
pub struct SigClaim {
    pub pubkey: Vec<u8>,
    pub message: Vec<u8>,
    pub signature: Vec<u8>,
}

/// The contents of a [`SigClaim`].
pub struct ClaimModel {
    pub pubkey: Seq<u8>,
    pub message: Seq<u8>,
    pub signature: Seq<u8>,
}

impl View for SigClaim {
    type V = ClaimModel;

    open spec fn view(&self) -> ClaimModel {
        ClaimModel {
            pubkey: self.pubkey@,
            message: self.message@,
            signature: self.signature@,
        }
    }
}

/// The contents of a list of claims.
pub open spec fn claims_of(s: Seq<SigClaim>) -> Seq<ClaimModel> {
    Seq::new(s.len(), |i: int| s[i]@)
}

/// The claims that were checked and found to hold.
#[derive(Debug)]
pub struct Verified {
    claims: Vec<SigClaim>,
}

impl View for Verified {
    type V = Set<ClaimModel>;

    closed spec fn view(&self) -> Set<ClaimModel> {
        claims_of(self.claims@).to_set()
    }
}

impl Verified {
    /// No claim at all.
    pub fn new() -> (r: Self)
        ensures
            r@ == Set::<ClaimModel>::empty(),
    {
        let r = Verified { claims: Vec::new() };
        assert(r@ =~= Set::empty());
        r
    }

    /// Whether the claim was found to hold.
    pub fn holds(&self, pubkey: &[u8], message: &[u8], signature: &[u8]) -> (r: bool)
        ensures
            r == self@.contains(
                (ClaimModel { pubkey: pubkey@, message: message@, signature: signature@ }),
            ),
    {
        let ghost want = ClaimModel {
            pubkey: pubkey@,
            message: message@,
            signature: signature@,
        };
        let mut i: usize = 0;
        while i < self.claims.len()
            invariant
                i <= self.claims@.len(),
                want == (ClaimModel {
                    pubkey: pubkey@,
                    message: message@,
                    signature: signature@,
                }),
                forall|j: int| 0 <= j < i ==> #[trigger] claims_of(self.claims@)[j] != want,
            decreases self.claims@.len() - i,
        {
            let c: &SigClaim = &self.claims[i];
            if same_bytes(&c.message, message) && same_bytes(&c.pubkey, pubkey) && same_bytes(
                &c.signature,
                signature,
            ) {
                assert(claims_of(self.claims@)[i as int] == want);
                return true;
            }
            i = i + 1;
        }
        false
    }

    /// Notes what checking a claim came to: the claim holds if the check ran
    /// and passed.
    pub fn settle(&mut self, claim: SigClaim, outcome: Result<bool, PqBitError>)
        ensures
            final(self)@ == (if outcome == Ok::<bool, PqBitError>(true) {
                old(self)@.insert(claim@)
            } else {
                old(self)@
            }),
    {
        let ghost was = self.claims@;
        match outcome {
            Ok(true) => {
                self.claims.push(claim);
                proof {
                    assert(claims_of(self.claims@) =~= claims_of(was).push(claim@));
                    lemma_push_set(claims_of(was), claim@);
                }
            },
            _ => {},
        }
    }
}

} // verus!
