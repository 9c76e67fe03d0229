# pqbit

A post-quantum UTXO chain: transactions authorized by ML-DSA-44 signatures,
blocks with SHA-256d proof of work, a bounded mempool, longest-chain fork
choice, and a gossip protocol between nodes.

`src/` is the library. Its functions carry contracts that Verus proves; the
functions named `law_...` state what holds of the library as a whole.

A few functions call other crates or the standard library, and what their
contracts say is believed, not proved: `sha256`, `sha256d`, `hex_text` and
`hex_bytes` in `hashing`, `text_from_utf8` and the contract of `String::push` in
`text`. `os_random` in `sig` asks the operating system for random bytes and has
no contract: nothing is relied on about what it returns.

| Module | What it holds |
|---|---|
| `bytes`, `text`, `assoc` | byte strings, text, and lists read as maps |
| `hashing`, `sig` | digests and hexadecimal text; signature outcomes and claims |
| `tx`, `utxo`, `block`, `chain` | transactions, unspent outputs, blocks, the chain state |
| `ledger` | laws of the ledger: conservation, single spending, replay |
| `claims`, `settle` | which signatures have to be checked before a judgement |
| `mempool` | the pool of unconfirmed transactions |
| `wire`, `codec`, `roundtrip` | limits and errors, wire formats, what is written reads back |
| `addrbook`, `targets` | peer addresses, and which peers a gossip tick dials, seeds first |
| `node`, `fork` | fork choice and mining, and their laws |
| `catchup` | that a node which is sent a longer chain ends on its tip |
| `protocol`, `sync` | the conversation between nodes, and that it converges |
| `wallet`, `export` | exports of unspent outputs, building spends, and their laws |

Judging a spend never checks a signature itself. The library lists the claims
that a judgement can depend on; the caller checks each of them and records the
outcome in a `Verified` value, which the judgement reads.

`app/` is the node program around the library: the command line, sockets,
threads, files, and the calls that make and check signatures.
