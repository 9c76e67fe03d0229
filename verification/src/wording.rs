//! What errors say.
use vstd::prelude::*;

use crate::chain::NodeError;
use crate::hashing::hex_of;
use crate::mempool::MempoolError;
use crate::sig::PqBitError;
use crate::wire::{NetError, WireFault};

verus! {

/// What each error of the chain and of the signatures says.
pub proof fn law_chain_errors_in_words(e: NodeError, s: PqBitError)
    ensures
        e.words() == match e {
            NodeError::BadPrevHash => "prev_hash does not chain"@,
            NodeError::BadPoW => "block does not meet PoW target"@,
            NodeError::Overspend => "outputs exceed inputs"@,
            NodeError::BadSignature => "PQ signature invalid"@,
            NodeError::DoubleSpend => "UTXO spent twice"@,
            NodeError::UnknownUtxo => "input references unknown UTXO"@,
        },
        s.words() == match s {
            PqBitError::SignatureRejected => "PQ signature rejected"@,
            PqBitError::UnsupportedAlgorithm => "unsupported signature algorithm"@,
            PqBitError::MalformedTransaction => "malformed transaction"@,
        },
{
}

/// What each error of the pool and of the peers says; one that wraps another
/// ends in what that one says, and an unknown type is shown in hexadecimal.
pub proof fn law_wrapped_errors_in_words(m: MempoolError, n: NetError)
    ensures
        m.words() == match m {
            MempoolError::Invalid(e) => "invalid tx: "@ + e.words(),
            MempoolError::Duplicate => "duplicate txid"@,
            MempoolError::Conflicting => "conflicts with pooled tx"@,
            MempoolError::Full => "mempool full"@,
        },
        n.words() == match n {
            NetError::Io(e) => "io: "@ + e.text@,
            NetError::TooLarge => "frame exceeds MAX_MSG"@,
            NetError::Truncated => "payload truncated mid-field"@,
            NetError::BadMagic => "peer magic mismatch"@,
            NetError::UnknownMsg(k) => "unknown message type 0x"@ + hex_of(seq![k]),
            NetError::BadBlock(e) => "peer sent invalid block: "@ + e.words(),
        },
{
}

/// A fault of a payload surfaces as the error of its name.
pub proof fn law_faults_surface()
    ensures
        WireFault::TooLarge.net() == NetError::TooLarge,
        WireFault::Truncated.net() == NetError::Truncated,
{
}

} // verus!
