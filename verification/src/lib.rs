//! A post-quantum UTXO chain: transactions that post-quantum signatures
//! authorize, blocks with SHA-256d proof of work, a bounded mempool,
//! longest-chain fork choice, and the gossip protocol between nodes.
//!
//! The functions named `law_...` state what holds of the library as a whole.
pub mod addrbook;
pub mod adoption;
pub mod assoc;
pub mod block;
pub mod bytes;
pub mod catchup;
pub mod chain;
pub mod claims;
pub mod codec;
pub mod commitments;
pub mod exchange;
pub mod export;
pub mod fork;
pub mod hashing;
pub mod judging;
pub mod layout;
pub mod ledger;
pub mod mempool;
pub mod node;
pub mod pooling;
pub mod protocol;
pub mod reading;
pub mod records;
pub mod roundtrip;
pub mod settle;
pub mod sig;
pub mod spending;
pub mod sync;
pub mod targets;
pub mod text;
pub mod tx;
pub mod utxo;
pub mod wallet;
pub mod wire;
pub mod wording;
