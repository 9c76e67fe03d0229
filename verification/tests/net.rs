//! Wire formats, the address book, fork choice, mining and the conversation
//! between nodes.
use pqbit::addrbook::AddrBook;
use pqbit::block::{coinbase, mine_block, Block};
use pqbit::chain::{ChainState, NodeError};
use pqbit::claims::ClaimScope;
use pqbit::codec::{
    decode_addrs, decode_block, decode_blocks, decode_handshake, decode_tx, decode_u64,
    encode_addrs, encode_block, encode_blocks, encode_handshake, encode_tx, encode_u64, frame_len,
    read_frame, read_message, write_frame, write_message, Message,
};
use pqbit::mempool::Mempool;
use pqbit::node::{mine_one, NodeState};
use pqbit::protocol::{
    pull_greeted, pull_received, pull_start, read_failed, GossipRound, GossipSession, GossipStage,
};
use pqbit::sig::Verified;
use pqbit::targets::{gossip_targets, MAX_TARGETS};
use pqbit::tx::{Transaction, TxIn, TxOut};
use pqbit::wire::{
    IoError, IoKind, NetError, Reader, MAGIC, MAX_ADDR_MSG, MAX_BOOK, MAX_MSG, MSG_ADDR, MSG_BLOCKS,
    MSG_GETADDR, MSG_GETBLOCKS, MSG_GETMEMPOOL, MSG_HANDSHAKE, MSG_MEMPOOL, MSG_PING, MSG_PONG,
    MSG_TX, VERSION,
};

const D: u32 = 8;
const REWARD: u64 = 50;

fn key(tag: u8) -> Vec<u8> {
    vec![tag; 1312]
}

fn sign(tag: u8, message: &[u8]) -> Vec<u8> {
    let mut s = vec![tag];
    s.extend_from_slice(message);
    s
}

/// Checks every claim that taking the message can depend on.
fn settle(state: &NodeState, m: &Message) -> Verified {
    let mut v = Verified::new();
    for c in state.message_claims(m) {
        let holds = c.signature == sign(c.pubkey[0], &c.message);
        v.settle(c, Ok(holds));
    }
    v
}

fn settle_pool(state: &NodeState, txs: &Vec<Transaction>) -> Verified {
    let mut scope = ClaimScope::new();
    scope.add_coins(&state.chain.utxos);
    scope.add_txs(txs);
    let mut v = Verified::new();
    for c in scope.claims() {
        let holds = c.signature == sign(c.pubkey[0], &c.message);
        v.settle(c, Ok(holds));
    }
    v
}

fn fake_block(height: u64, prev: &str) -> Block {
    Block {
        height,
        prev_hash: prev.to_string(),
        timestamp: 1_700_000_000 + height,
        transactions: vec![Transaction {
            version: 1,
            inputs: vec![],
            outputs: vec![TxOut {
                value: 50_000_000,
                pubkey: vec![0xAB; 1312], // ML-DSA-44 pk size
            }],
            locktime: 0,
        }],
        nonce: height * 7,
    }
}

fn mine_on(st: &mut ChainState, tag: u8, timestamp: u64) -> Block {
    let blk = Block {
        height: st.tip_height + 1,
        prev_hash: st.tip_hash.clone(),
        timestamp,
        transactions: vec![coinbase(key(tag), REWARD, st.tip_height + 1)],
        nonce: 0,
    };
    let mined = mine_block(blk, D, 2_000_000).expect("mine");
    st.apply_block(&mined, REWARD, &Verified::new()).expect("apply");
    mined
}

/// Mine a real `n`-block chain and return (ChainState, blocks).
fn mined_chain(n: u64) -> (ChainState, Vec<Block>) {
    let mut st = ChainState::new(D);
    let mut blocks = Vec::new();
    for h in 1..=n {
        blocks.push(mine_on(&mut st, 0xA1, 1_700_000_000 + h));
    }
    (st, blocks)
}

fn node_with(chain: ChainState, blocks: Vec<Block>, listen: &str) -> NodeState {
    NodeState {
        listen: listen.to_string(),
        reward: REWARD,
        blocks,
        chain,
        book: AddrBook::new(),
        pool: Mempool::new(),
        miner_key: vec![0xAB; 1312],
    }
}

/// Sends a message over a byte stream.
fn over_wire(m: &Message) -> Message {
    let mut stream = Vec::new();
    write_message(&mut stream, m.kind, &m.payload).expect("write");
    let mut r = Reader::new(&stream);
    let back = read_message(&mut r).expect("read");
    assert_eq!(r.left(), 0);
    back
}

/// One gossip round of `client` against `server`.
fn gossip_round(
    peer: &str,
    client: &mut NodeState,
    server: &mut NodeState,
) -> Result<GossipRound, NetError> {
    let (mut session, hello) = GossipSession::start(client, peer);
    let mut inbox = vec![server.greet(&over_wire(&hello))?];
    while session.stage != GossipStage::Finished {
        let m = over_wire(&inbox.remove(0));
        let v = settle(client, &m);
        let sends = session.step(client, &m, 1_000, &v)?;
        for s in &sends {
            let s = over_wire(s);
            let v = settle(server, &s);
            if let Some(reply) = server.on_message(&s, 2_000, &v)? {
                inbox.push(reply);
            }
        }
    }
    Ok(session.round)
}

#[test]
fn block_codec_roundtrip() {
    let b = fake_block(7, "deadbeef");
    let enc = encode_block(&b);
    let dec = decode_block(&enc).expect("decode");
    assert_eq!(dec.height, b.height);
    assert_eq!(dec.prev_hash, b.prev_hash);
    assert_eq!(dec.timestamp, b.timestamp);
    assert_eq!(dec.nonce, b.nonce);
    assert_eq!(dec.transactions.len(), 1);
    assert_eq!(dec.transactions[0].outputs[0].pubkey, vec![0xAB; 1312]);
}

#[test]
fn blocks_roundtrip_many() {
    let blocks: Vec<Block> = (0..5).map(|i| fake_block(i, "aa")).collect();
    let dec = decode_blocks(&encode_blocks(&blocks)).expect("decode many");
    assert_eq!(dec.len(), 5);
    assert_eq!(dec[3].nonce, 21);
}

#[test]
fn truncated_payload_is_caught() {
    let enc = encode_block(&fake_block(1, "ff"));
    assert!(matches!(
        decode_block(&enc[..enc.len() - 3]),
        Err(NetError::Truncated)
    ));
}

#[test]
fn every_cut_of_a_block_is_caught() {
    let mut b = fake_block(1, "ff");
    b.transactions[0].outputs[0].pubkey = vec![1, 2, 3];
    let enc = encode_block(&b);
    for k in 0..enc.len() {
        assert!(matches!(decode_block(&enc[..k]), Err(NetError::Truncated)));
    }
    let many = encode_blocks(&[b.clone(), b]);
    for k in 0..many.len() {
        assert!(matches!(decode_blocks(&many[..k]), Err(NetError::Truncated)));
    }
}

#[test]
fn block_layout_is_fixed() {
    let b = Block {
        height: 1,
        prev_hash: "é".to_string(),
        timestamp: 2,
        transactions: vec![],
        nonce: 3,
    };
    let mut want = Vec::new();
    want.extend_from_slice(&1u64.to_le_bytes());
    want.extend_from_slice(&2u64.to_le_bytes());
    want.extend_from_slice(&3u64.to_le_bytes());
    want.extend_from_slice(&2u32.to_le_bytes());
    want.extend_from_slice(&[0xC3, 0xA9]);
    want.extend_from_slice(&0u32.to_le_bytes());
    assert_eq!(encode_block(&b), want);
    assert_eq!(decode_block(&want).unwrap().prev_hash, "é");
    // a previous hash that is no text
    want[28] = 0xFF;
    assert!(matches!(decode_block(&want), Err(NetError::Truncated)));
    // a length past the cap
    want[24..28].copy_from_slice(&(MAX_MSG as u32 + 1).to_le_bytes());
    assert!(matches!(decode_block(&want), Err(NetError::TooLarge)));
    let n = (MAX_MSG as u32 + 1).to_le_bytes();
    assert!(matches!(decode_blocks(&n), Err(NetError::TooLarge)));
}

#[test]
fn addr_codec_and_book() {
    let addrs = vec!["10.0.0.1:18444".to_string(), "[::1]:18445".to_string()];
    let dec = decode_addrs(&encode_addrs(&addrs)).expect("decode addrs");
    assert_eq!(dec, addrs);

    let mut book = AddrBook::new();
    assert!(book.merge("1.2.3.4:1", 100));
    assert!(!book.merge("1.2.3.4:1", 200), "dup is not new");
    assert!(!book.merge("", 1), "empty rejected");
    assert!(!book.merge("no port", 1), "needs a colon");
    assert!(!book.merge("1.2.3.4:1 with space", 1));
    assert_eq!(book.len(), 1);
    assert_eq!(book.addrs(), vec!["1.2.3.4:1".to_string()]);
    assert_eq!(book.last_seen("1.2.3.4:1"), Some(200));
    assert_eq!(book.last_seen("4.3.2.1:1"), None);
}

#[test]
fn addresses_are_capped() {
    assert!(AddrBook::addr_sane(&format!("{}:1", "a".repeat(62))));
    assert!(!AddrBook::addr_sane(&format!("{}:1", "a".repeat(63))));
    assert!(!AddrBook::addr_sane(&format!("{}:", "é".repeat(32))), "bytes count");
    assert!(!AddrBook::addr_sane("a:\u{3000}"));
    assert!(!AddrBook::addr_sane("a:1\n"));
    let n = (MAX_ADDR_MSG as u32 + 1).to_le_bytes();
    assert!(matches!(decode_addrs(&n), Err(NetError::TooLarge)));
    assert!(matches!(decode_addrs(&[1, 0, 0, 0, 1, 0, 0, 0, 0xFF]), Err(NetError::Truncated)));
    let mut book = AddrBook::new();
    for i in 0..MAX_BOOK {
        assert!(book.merge(&format!("10.0.0.1:{i}"), 1));
    }
    assert!(!book.merge("10.0.0.2:1", 1), "full");
    assert!(!book.merge("10.0.0.1:7", 9), "known, only bumped");
    assert_eq!(book.last_seen("10.0.0.1:7"), Some(9));
    assert_eq!(book.len(), MAX_BOOK);
}

#[test]
fn white_space_is_that_of_unicode() {
    for u in 0..0x11_0000u32 {
        if let Some(c) = char::from_u32(u) {
            assert_eq!(pqbit::text::white(c), c.is_whitespace(), "U+{u:04X}");
        }
    }
}

#[test]
fn peer_store_survives_restart() {
    // "session 1": learn two peers, flush, drop
    let stored = {
        let mut book = AddrBook::with_persistence(None);
        assert!(book.is_empty(), "fresh file = empty book");
        assert!(book.merge("10.0.0.9:18444", 1_000));
        assert!(book.merge("10.0.0.8:18445", 2_000));
        assert!(!book.merge("10.0.0.8:18445", 2_500), "known addr bumps, not adds");
        let text = book.flush().expect("something to write");
        book.flushed();
        assert!(book.flush().is_none(), "nothing changed since");
        text
    };

    // "session 2": a new process loads what session 1 learned
    let book = AddrBook::with_persistence(Some(&stored));
    assert_eq!(book.len(), 2, "both peers survive the restart");
    assert!(book.addrs().contains(&"10.0.0.9:18444".to_string()));
    assert!(book.addrs().contains(&"10.0.0.8:18445".to_string()));
    assert_eq!(book.last_seen("10.0.0.8:18445"), Some(2_500));
    assert!(book.flush().is_none());
}

#[test]
fn peer_store_rejects_junk_and_renders_garbage_harmless() {
    // corrupt file: junk lines, missing timestamps, insane addrs, valid line
    let book = AddrBook::with_persistence(Some(
        "not a peer line\n9999 bad addr with spaces\n\nabc:1\n777 10.1.1.1:18444\n",
    ));
    assert_eq!(book.len(), 1, "only the valid line survives");
    assert!(book.addrs().contains(&"10.1.1.1:18444".to_string()));

    // missing file: load is empty, a failed write leaves the book to be written
    let mut book = AddrBook::with_persistence(None);
    assert!(book.is_empty());
    assert!(book.merge("10.9.9.9:1", 5));
    assert_eq!(book.flush().as_deref(), Some("5 10.9.9.9:1\n"));
    assert_eq!(book.flush().as_deref(), Some("5 10.9.9.9:1\n"));
}

#[test]
fn peer_store_reads_lines_of_either_ending() {
    let book = AddrBook::with_persistence(Some(
        "1 a:1\r\n+2 b:2\n-3 c:3\n18446744073709551616 d:4\n18446744073709551615 e:5\n6  f:6\n7 g:7",
    ));
    assert_eq!(book.last_seen("a:1"), Some(1));
    assert_eq!(book.last_seen("b:2"), Some(2));
    assert_eq!(book.last_seen("c:3"), None);
    assert_eq!(book.last_seen("d:4"), None);
    assert_eq!(book.last_seen("e:5"), Some(u64::MAX));
    assert_eq!(book.last_seen("f:6"), None);
    assert_eq!(book.last_seen("g:7"), Some(7));
}

#[test]
fn peer_store_in_memory_book_never_writes() {
    // default book (no persistence) must stay exactly that: nothing to write
    let mut book = AddrBook::new();
    assert!(book.merge("1.1.1.1:1", 1));
    assert!(book.flush().is_none()); // no-op without a persist path
    assert_eq!(book.len(), 1);
}

#[test]
fn end_to_end_sync_two_nodes() {
    // node A: a real 2-block chain
    let (st, store) = mined_chain(2);
    let tip = st.tip_hash.clone();
    let mut a = node_with(st, store, "127.0.0.1:1");

    // node B: fresh, pulls everything, applies, reaches the same tip
    let hello = a.greet(&over_wire(&pull_start(0))).expect("greeting");
    let (their_height, request) = pull_greeted(0, &over_wire(&hello)).expect("pull");
    let request = request.expect("A is taller");
    let v = settle(&a, &request);
    let reply = a.on_message(&over_wire(&request), 0, &v).expect("answer").expect("blocks");
    let blocks = pull_received(&over_wire(&reply)).expect("blocks");
    assert_eq!(their_height, 2);
    assert_eq!(blocks.len(), 2);
    let mut st_b = ChainState::new(D);
    for b in &blocks {
        st_b.apply_block(b, REWARD, &Verified::new()).expect("B applies valid block");
    }
    assert_eq!(st_b.tip_hash, tip, "B must land on A's tip");
    assert_eq!(st_b.total_supply, 100); // 2 × 50

    // nothing to pull from a peer that is not taller
    let (h, request) = pull_greeted(2, &hello).expect("greeted");
    assert_eq!(h, 2);
    assert!(request.is_none());
    assert!(matches!(pull_received(&hello), Err(NetError::UnknownMsg(MSG_HANDSHAKE))));
}

#[test]
fn gossip_push_updates_shorter_peer() {
    // A has 2 blocks, B is empty. A runs a gossip round against B: B must
    // learn A's addr (announcement) and receive both blocks (push), validated.
    let (st_a, blocks_a) = mined_chain(2);
    let tip_a = st_a.tip_hash.clone();
    let mut a = node_with(st_a, blocks_a, "10.0.0.9:18444");
    let mut b = node_with(ChainState::new(D), Vec::new(), "10.0.0.8:18444");

    let r = gossip_round("10.0.0.8:18444", &mut a, &mut b).expect("gossip round");
    assert_eq!(r.pushed, 2, "A pushes both blocks");
    assert_eq!(r.pulled, 0);
    assert_eq!(r.their_height, 0);

    // B applied and validated: same tip, same supply
    assert_eq!(b.best_height(), 2);
    assert_eq!(b.chain.tip_hash, tip_a);
    assert_eq!(b.chain.total_supply, 100);
    assert_eq!(b.blocks.len(), 2);

    // B's book grew with A's announced addr
    assert!(b.book.addrs().contains(&"10.0.0.9:18444".to_string()));
    // A's book has the peer it talked to
    assert_eq!(a.book.last_seen("10.0.0.8:18444"), Some(1_000));
}

#[test]
fn gossip_pull_by_shorter_client() {
    // Tall B serves; empty C dials B as a client: C must pull all 3 blocks
    // (client was shorter) and land on B's tip.
    let (st_b, blocks_b) = mined_chain(3);
    let tip_b = st_b.tip_hash.clone();
    let mut b = node_with(st_b, blocks_b, "10.0.0.7:18444");

    let mut c = node_with(ChainState::new(D), Vec::new(), "10.0.0.6:18444");
    let r = gossip_round("10.0.0.7:18444", &mut c, &mut b).expect("gossip round");
    assert_eq!(r.pulled, 3);
    assert_eq!(r.pushed, 0);
    assert_eq!(r.their_height, 3);
    assert_eq!(c.best_height(), 3);
    assert_eq!(c.chain.tip_hash, tip_b);
}

#[test]
fn addr_propagation_via_getaddr() {
    // B already knows A. C dials B: C must learn A's addr from B's book
    // (GETADDR), and B must learn C's addr (C's announcement).
    let a_addr = "10.0.0.1:18444".to_string();
    let mut b = node_with(ChainState::new(D), Vec::new(), "10.0.0.2:18444");
    b.book.merge(&a_addr, 5);

    let mut c = node_with(ChainState::new(D), Vec::new(), "10.0.0.3:18444");
    let r = gossip_round("10.0.0.2:18444", &mut c, &mut b).expect("round C→B");
    assert_eq!(r.learned, 1, "C learns exactly A");
    assert!(c.book.addrs().contains(&a_addr));
    assert!(b.book.addrs().contains(&"10.0.0.3:18444".to_string()));
}

#[test]
fn gossiper_loop_converges_two_nodes() {
    // B's rounds (seeds = [A]) must pull A's chain until the tips match, then
    // stay quiet.
    let (st_a, blocks_a) = mined_chain(2);
    let tip_a = st_a.tip_hash.clone();
    let mut a = node_with(st_a, blocks_a, "127.0.0.1:2");
    let mut b = node_with(ChainState::new(D), Vec::new(), "127.0.0.1:3");
    let seeds = vec!["127.0.0.1:2".to_string()];
    let mut last = GossipRound::default();
    for _ in 0..3 {
        for peer in gossip_targets(&seeds, &b.book.addrs()) {
            last = gossip_round(&peer, &mut b, &mut a).expect("round");
        }
    }
    assert_eq!(b.best_height(), 2, "gossiper loop must converge to A's tip");
    assert_eq!(b.chain.tip_hash, tip_a);
    assert_eq!(last, GossipRound { their_height: 2, ..GossipRound::default() });
}

/// A one-block chain paying `tag`, and a signed spend of its coinbase.
fn funded(tag: u8, to: Vec<u8>) -> (ChainState, Vec<Block>, Transaction) {
    let mut st = ChainState::new(D);
    let b = mine_on(&mut st, tag, 1_700_000_000);
    let u = &st.utxos.entries()[0];
    let mut tx = Transaction {
        version: 1,
        inputs: vec![TxIn {
            prev_txid: hex::decode(&u.txid).unwrap().try_into().unwrap(),
            vout: u.vout,
            signature: vec![],
        }],
        outputs: vec![TxOut { value: u.value, pubkey: to }],
        locktime: 0,
    };
    tx.inputs[0].signature = sign(tag, &tx.sighash());
    (st, vec![b], tx)
}

#[test]
fn mempool_relays_over_wire() {
    // A mines a chain with a KNOWN key, pools a signed spend, then runs a
    // gossip round against empty B. B's pool must end up holding the tx.
    let (st_a, blocks_a, tx) = funded(0xA1, vec![0xEE; 1312]);
    let mut a = node_with(st_a, blocks_a, "10.0.0.11:18444");
    let v = settle_pool(&a, &vec![tx.clone()]);
    a.pool.accept(&tx, &a.chain, &v).expect("pool A");

    let mut b = node_with(ChainState::new(D), Vec::new(), "10.0.0.12:18444");
    let r = gossip_round("10.0.0.12:18444", &mut a, &mut b).expect("round");
    assert_eq!(r.pushed, 1, "A is taller: pushes its block");
    assert_eq!(b.best_height(), 1, "B applied the pushed block");
    assert_eq!(b.pool.len(), 1, "tx relayed over wire");
    // B's pool comes back as nothing new
    assert_eq!(r.txs, 0);
    // a third node pulls block and transaction
    let mut c = node_with(ChainState::new(D), Vec::new(), "10.0.0.13:18444");
    let r = gossip_round("10.0.0.12:18444", &mut c, &mut b).expect("round");
    assert_eq!((r.pulled, r.txs), (1, 1));
    assert_eq!(c.pool.txs()[0].txid(), tx.txid());
}

#[test]
fn mine_one_packs_pool_and_drains() {
    // Known-key chain, one pooled spend → mine_one must produce a block
    // containing coinbase + spend, apply it, and drain the pool.
    let (st, blocks, tx) = funded(0xA1, vec![0x77; 1312]);
    let mut n = node_with(st, blocks, "10.0.0.13:18444");
    n.miner_key = key(0xA1);
    let v = settle_pool(&n, &vec![tx.clone()]);
    n.pool.accept(&tx, &n.chain, &v).expect("pool");

    let blk = mine_one(&mut n, D, 2_000_000, 1_700_000_050, &v).expect("mine_one");
    assert_eq!(blk.transactions.len(), 2, "coinbase + pooled spend");
    assert_eq!(n.best_height(), 2);
    assert!(n.pool.is_empty(), "pool drained after mining");
    assert_eq!(n.blocks.len(), 2);
    assert_eq!(n.chain.balance_of(&vec![0x77; 1312]), 50);
    assert_eq!(blk.timestamp, 1_700_000_050);
}

#[test]
fn mining_can_fail() {
    let (st, blocks, tx) = funded(0xA1, key(2));
    let mut n = node_with(st, blocks, "x:1");
    let err = mine_one(&mut n, 64, 1, 0, &Verified::new()).unwrap_err();
    assert_eq!(err.describe(), "io: mining budget exhausted");
    // a block that meets less work than the chain asks for
    let err = mine_one(&mut n, 0, 1, 0, &Verified::new());
    if n.best_height() == 1 {
        assert!(matches!(err, Err(NetError::BadBlock(NodeError::BadPoW))));
    }
    // a template that another block overtook is stale
    let (st, blocks) = mined_chain(1);
    let mut n = node_with(st, blocks, "x:1");
    let slow = mine_block(n.mining_template(1), D, 2_000_000).unwrap();
    mine_one(&mut n, D, 2_000_000, 2, &Verified::new()).unwrap();
    let err = n.commit_mined(&slow, &Verified::new()).unwrap_err();
    assert_eq!(err.describe(), "io: stale block: tip moved while mining");
    assert_eq!(n.best_height(), 2);
    assert!(n.block_claims(&slow).is_empty());
    assert_eq!(tx.inputs.len(), 1);
}

#[test]
fn reorg_to_longer_fork_branch() {
    // Two miners build different blocks at height 2 (fork). The fork with
    // MORE work (height 3) wins: node must reorg and orphan our block 2.

    // common ancestor: block 1
    let mut st0 = ChainState::new(D);
    let b1 = mine_on(&mut st0, 0xA1, 1_700_000_000);

    // our branch: block 2A on top of block 1
    let mut st_a = st0.clone();
    let b2a = mine_on(&mut st_a, 0xA1, 1_700_000_100);

    // node holds branch A (tip = 2A)
    let mut n = node_with(st_a, vec![b1.clone(), b2a.clone()], "10.0.0.21:18444");
    assert_eq!(n.best_height(), 2);

    // rival branch: blocks 2B and 3 (LONGER), mined off the same block 1
    let mut st_b = st0.clone();
    let b2b = mine_on(&mut st_b, 0xA1, 1_700_000_200);
    let b3 = mine_on(&mut st_b, 0xA1, 1_700_000_300);

    // 2B arrives first: same height sibling → stashed, tip unchanged
    let v = Verified::new();
    n.apply_incoming(&b2b, &v).expect("stash sibling");
    assert_eq!(n.best_height(), 2);

    // block 3 arrives: branch (1←2B←3) is fully known & LONGER → reorg
    n.apply_incoming(&b3, &v).expect("reorg");
    assert_eq!(n.best_height(), 3, "reorged to the longer branch");
    assert_eq!(n.chain.tip_hash, b3.hash());
    // store now holds exactly the winning branch
    let hashes: Vec<String> = n.blocks.iter().map(|b| b.hash()).collect();
    assert!(hashes.contains(&b3.hash()));
    assert!(hashes.contains(&b2b.hash()));
    assert!(!hashes.contains(&b2a.hash()), "orphaned block removed from store");
    assert_eq!(hashes.len(), 3);
}

#[test]
fn orphaned_spends_return_to_the_pool() {
    let (st0, first, tx) = funded(0xA1, key(0xB2));
    let b1 = first[0].clone();
    // our branch holds the spend
    let mut n = node_with(st0.clone(), vec![b1], "x:1");
    n.miner_key = key(0xA1);
    let v = settle_pool(&n, &vec![tx.clone()]);
    n.pool.accept(&tx, &n.chain, &v).unwrap();
    mine_one(&mut n, D, 2_000_000, 5, &v).unwrap();
    assert!(n.pool.is_empty());
    // the rival branch does not
    let mut st_b = st0;
    let b2b = mine_on(&mut st_b, 0xC3, 6);
    let b3b = mine_on(&mut st_b, 0xC3, 7);
    // the taller block alone cannot win: its parent is missing
    n.apply_incoming(&b3b, &v).unwrap();
    assert_eq!(n.best_height(), 2);
    // the parent completes the branch
    let blocks = Message { kind: MSG_BLOCKS, payload: encode_blocks(&[b2b]) };
    let v = settle(&n, &blocks);
    n.on_message(&blocks, 0, &v).unwrap();
    assert_eq!(n.chain.tip_hash, b3b.hash());
    assert_eq!(n.pool.len(), 1, "the orphaned spend is pooled again");
    assert_eq!(n.pool.txs()[0].txid(), tx.txid());
}

#[test]
fn bad_push_block_is_rejected() {
    // A pushes a garbage block to B: B must reject it (BadBlock) and its
    // chain must stay untouched.
    let mut b = node_with(ChainState::new(D), Vec::new(), "10.0.0.5:18444");
    let junk = fake_block(1, ""); // no PoW, wrong chaining
    let err = b.apply_incoming(&junk, &Verified::new()).unwrap_err();
    assert!(matches!(err, NetError::BadBlock(_)));
    assert_eq!(b.best_height(), 0);
    assert!(b.blocks.is_empty());
}

#[test]
fn old_and_unconnected_blocks_are_harmless() {
    let (st, blocks) = mined_chain(2);
    let mut n = node_with(st, blocks.clone(), "x:1");
    let v = Verified::new();
    n.apply_incoming(&blocks[0], &v).unwrap();
    n.apply_incoming(&blocks[1], &v).unwrap();
    assert_eq!(n.blocks.len(), 2);
    let far = fake_block(9, "feed");
    n.apply_incoming(&far, &v).unwrap();
    n.apply_incoming(&far, &v).unwrap();
    assert_eq!(n.blocks.len(), 3, "stashed once");
    assert_eq!(n.best_height(), 2);
    // a fully known branch that does not replay is refused
    let alone = fake_block(9, "");
    assert!(matches!(
        n.apply_incoming(&alone, &v),
        Err(NetError::BadBlock(NodeError::BadPrevHash))
    ));
    assert_eq!(n.blocks.len(), 3);
}

#[test]
fn blocks_are_taken_in_any_order() {
    let (st, blocks) = mined_chain(4);
    let mut n = node_with(ChainState::new(D), Vec::new(), "x:1");
    let v = Verified::new();
    for b in blocks.iter().rev() {
        n.apply_incoming(b, &v).unwrap();
    }
    // the last to come completes the branch of all the others
    assert_eq!((n.best_height(), n.blocks.len()), (4, 4));
    assert_eq!(n.chain.tip_hash, st.tip_hash);
    let order: Vec<u64> = n.blocks.iter().map(|b| b.height).collect();
    assert_eq!(order, vec![1, 2, 3, 4], "the store is the branch, first block first");
    assert_eq!(n.chain.total_supply, 200);
}

/// The first block, two rivals above it, and a block on the second rival.
fn forked() -> (ChainState, [Block; 4]) {
    let mut st = ChainState::new(D);
    let b1 = mine_on(&mut st, 0xA1, 1);
    let mut other = st.clone();
    let b2a = mine_on(&mut st, 0xA1, 2);
    let b2b = mine_on(&mut other, 0xB2, 3);
    let b3 = mine_on(&mut other, 0xB2, 4);
    (st, [b1, b2a, b2b, b3])
}

#[test]
fn a_completed_taller_branch_wins() {
    let (st, [b1, b2a, b2b, b3]) = forked();
    let v = Verified::new();
    let mut n = node_with(st, vec![b1.clone(), b2a.clone()], "x:1");
    assert!(n.apply_incoming(&b3, &v).is_ok());
    assert_eq!(n.chain.tip_hash, b2a.hash(), "its parent is missing");
    assert_eq!(n.blocks.len(), 3);
    assert!(n.apply_incoming(&b2b, &v).is_ok());
    assert_eq!(n.best_height(), 3);
    assert_eq!(n.chain.tip_hash, b3.hash());
    let order: Vec<String> = n.blocks.iter().map(|b| b.hash()).collect();
    assert_eq!(order, vec![b1.hash(), b2b.hash(), b3.hash()]);
    assert_eq!(n.chain.total_supply, 150);
    // and nothing moves it back
    for b in [&b1, &b2b, &b3] {
        n.apply_incoming(b, &v).unwrap();
        assert_eq!((n.best_height(), n.blocks.len()), (3, 3));
    }
    n.apply_incoming(&b2a, &v).unwrap();
    assert_eq!(n.chain.tip_hash, b3.hash(), "a lower block is dropped");
}

#[test]
fn an_extension_completes_a_stashed_branch() {
    // blocks 3 and 4 wait for block 2, which extends the tip
    let (st, blocks) = mined_chain(4);
    let v = Verified::new();
    let mut n = node_with(ChainState::new(D), Vec::new(), "x:1");
    n.apply_incoming(&blocks[0], &v).unwrap();
    n.apply_incoming(&blocks[3], &v).unwrap();
    n.apply_incoming(&blocks[2], &v).unwrap();
    assert_eq!((n.best_height(), n.blocks.len()), (1, 3));
    n.apply_incoming(&blocks[1], &v).unwrap();
    assert_eq!(n.best_height(), 4);
    assert_eq!(n.chain.tip_hash, st.tip_hash);
    assert_eq!(n.chain.utxos.len(), st.utxos.len());
}

#[test]
fn of_equally_tall_branches_the_last_to_come_wins() {
    // two rivals of height 3 wait for one parent: the one stored last is taken
    let (st, [b1, b2a, b2b, b3]) = forked();
    let v = Verified::new();
    let mut other = ChainState::new(D);
    other.apply_block(&b1, REWARD, &v).unwrap();
    other.apply_block(&b2b, REWARD, &v).unwrap();
    let b3x = mine_on(&mut other, 0xC3, 9);
    let mut n = node_with(st, vec![b1, b2a], "x:1");
    n.apply_incoming(&b3, &v).unwrap();
    n.apply_incoming(&b3x, &v).unwrap();
    n.apply_incoming(&b2b, &v).unwrap();
    assert_eq!(n.chain.tip_hash, b3x.hash());
}

#[test]
fn a_stashed_branch_that_does_not_replay_cannot_win() {
    let (st, [b1, b2a, b2b, _]) = forked();
    let v = Verified::new();
    let mut n = node_with(st, vec![b1, b2a.clone()], "x:1");
    // it names the second rival, but carries no work
    let junk = fake_block(3, &b2b.hash());
    n.apply_incoming(&junk, &v).unwrap();
    n.apply_incoming(&b2b, &v).unwrap();
    assert_eq!(n.chain.tip_hash, b2a.hash());
    assert_eq!(n.blocks.len(), 4);
}

#[test]
fn a_node_with_a_stash_catches_up() {
    let (st, blocks) = mined_chain(6);
    let v = Verified::new();
    // blocks of the peer's own chain
    let mut n = node_with(ChainState::new(D), Vec::new(), "x:1");
    n.apply_incoming(&blocks[0], &v).unwrap();
    n.apply_incoming(&blocks[3], &v).unwrap();
    n.apply_incoming(&blocks[5], &v).unwrap();
    let push = Message { kind: MSG_BLOCKS, payload: encode_blocks(&blocks[1..]) };
    assert!(n.on_message(&push, 0, &v).unwrap().is_none());
    assert_eq!(n.chain.tip_hash, st.tip_hash);
    // a rival of the peer's third block
    let mut side = ChainState::new(D);
    for b in &blocks[..2] {
        side.apply_block(b, REWARD, &v).unwrap();
    }
    let rival = mine_on(&mut side, 0xC3, 77);
    let mut n = node_with(ChainState::new(D), Vec::new(), "x:1");
    n.apply_incoming(&blocks[0], &v).unwrap();
    n.apply_incoming(&rival, &v).unwrap();
    assert_eq!(n.best_height(), 1);
    let push = Message { kind: MSG_BLOCKS, payload: encode_blocks(&blocks[1..]) };
    assert!(n.on_message(&push, 0, &v).unwrap().is_none());
    assert_eq!(n.chain.tip_hash, st.tip_hash);
}

#[test]
fn a_peer_with_a_stash_brings_a_node_up() {
    // the peer has stored a sibling of its second block, a sibling of its tip,
    // and a block with a missing ancestor
    let (st, blocks) = mined_chain(5);
    let v = Verified::new();
    let rival = |below: &[Block], time: u64| {
        let mut side = ChainState::new(D);
        for b in below {
            side.apply_block(b, REWARD, &v).unwrap();
        }
        mine_on(&mut side, 0xC3, time)
    };
    let mut peer = node_with(ChainState::new(D), Vec::new(), "10.0.0.20:18444");
    let far = fake_block(9, "feed");
    for b in [&blocks[0], &blocks[1], &rival(&blocks[..1], 77), &blocks[2], &far] {
        peer.apply_incoming(b, &v).unwrap();
    }
    for b in [&blocks[3], &blocks[4], &rival(&blocks[..4], 78)] {
        peer.apply_incoming(b, &v).unwrap();
    }
    assert_eq!((peer.best_height(), peer.blocks.len()), (5, 8));
    // pulled by a new node, and by one that stands on the first block
    let mut one = ChainState::new(D);
    one.apply_block(&blocks[0], REWARD, &v).unwrap();
    for (chain, has, pulled) in [(ChainState::new(D), vec![], 5), (one, vec![blocks[0].clone()], 4)] {
        let mut n = node_with(chain, has, "10.0.0.21:18444");
        let r = gossip_round("10.0.0.20:18444", &mut n, &mut peer).expect("round");
        assert_eq!(n.chain.tip_hash, st.tip_hash);
        assert_eq!(r.pulled, pulled, "only the blocks of the chain count");
    }
    // pushed to a new node
    let mut n = node_with(ChainState::new(D), Vec::new(), "10.0.0.22:18444");
    let push = Message { kind: MSG_BLOCKS, payload: encode_blocks(&peer.blocks) };
    assert!(n.on_message(&push, 0, &v).unwrap().is_none());
    assert_eq!(n.chain.tip_hash, st.tip_hash);
}

#[test]
fn a_taller_block_that_cannot_win_shuts_nothing_out() {
    let (st, [b1, b2a, b2b, b3]) = forked();
    let v = Verified::new();
    let mut n = node_with(st, vec![b1, b2a], "x:1");
    // stored and taller, on an unknown block, and on b3 without work
    n.apply_incoming(&fake_block(9, "feed"), &v).unwrap();
    n.apply_incoming(&fake_block(4, &b3.hash()), &v).unwrap();
    n.apply_incoming(&b2b, &v).unwrap();
    assert_eq!(n.best_height(), 2);
    n.apply_incoming(&b3, &v).unwrap();
    assert_eq!(n.chain.tip_hash, b3.hash());
    assert_eq!(n.blocks.len(), 3);
}

#[test]
fn what_is_read_is_an_encoding() {
    let (_, blocks) = mined_chain(2);
    let mut raw = encode_block(&blocks[1]);
    let len = raw.len();
    raw.extend_from_slice(&[1, 2, 3]);
    // however the bytes are changed, what still reads is written the same
    for i in 0..raw.len() {
        let mut bytes = raw.clone();
        bytes[i] ^= 0x01;
        let mut r = Reader::new(&bytes);
        if let Ok(b) = r.block() {
            let out = encode_block(&b);
            assert_eq!(out[..], bytes[..out.len()]);
        }
    }
    assert_eq!(encode_block(&decode_block(&raw).unwrap()), raw[..len]);
    let tx = &blocks[0].transactions[0];
    let mut raw = encode_tx(tx);
    raw.push(7);
    for i in 0..raw.len() {
        let mut bytes = raw.clone();
        bytes[i] ^= 0x80;
        if let Ok(t) = decode_tx(&bytes) {
            let out = encode_tx(&t);
            assert_eq!(out[..], bytes[..out.len()]);
        }
    }
}

#[test]
fn only_applied_blocks_count_as_pulled() {
    let round = |n: &mut NodeState, reply: &[Block]| -> usize {
        let v = Verified::new();
        let (mut g, _) = GossipSession::start(n, "you:2");
        let hi = Message { kind: MSG_HANDSHAKE, payload: encode_handshake(MAGIC, VERSION, 99) };
        g.step(n, &hi, 0, &v).unwrap();
        let book = Message { kind: MSG_ADDR, payload: encode_addrs(&[]) };
        g.step(n, &book, 0, &v).unwrap();
        let blocks = Message { kind: MSG_BLOCKS, payload: encode_blocks(reply) };
        g.step(n, &blocks, 0, &v).unwrap();
        g.round.pulled
    };
    let (_, blocks) = mined_chain(4);
    let mut st = ChainState::new(D);
    for b in &blocks[..2] {
        st.apply_block(b, REWARD, &Verified::new()).unwrap();
    }
    let mut n = node_with(st, blocks[..2].to_vec(), "me:1");
    assert_eq!(round(&mut n, &blocks[..1]), 0, "below the tip");
    assert_eq!(round(&mut n, &blocks[3..]), 0, "only stashed");
    assert_eq!(n.blocks.len(), 3);
    // the third extends the tip and completes the branch of the fourth, which
    // then changes nothing when it comes again
    assert_eq!(round(&mut n, &blocks[1..]), 1);
    assert_eq!(n.best_height(), 4);
    assert_eq!(round(&mut n, &[]), 0);
    let mut fresh = node_with(ChainState::new(D), Vec::new(), "me:1");
    assert_eq!(round(&mut fresh, &blocks), 4);
}

#[test]
fn plain_extensions_need_no_stored_signature() {
    // a chain whose second block spends the first
    let (st0, first, tx) = funded(0xA1, key(0xB2));
    let mut n = node_with(st0, first, "x:1");
    n.miner_key = key(0xA1);
    let v = settle_pool(&n, &vec![tx.clone()]);
    n.pool.accept(&tx, &n.chain, &v).unwrap();
    mine_one(&mut n, D, 2_000_000, 5, &v).unwrap();
    let mut ahead = n.chain.clone();
    let next = mine_on(&mut ahead, 0xC3, 6);
    let push = |list: &[Block]| Message { kind: MSG_BLOCKS, payload: encode_blocks(list) };
    assert!(n.message_claims(&push(&[next.clone()])).is_empty());
    assert!(n.message_claims(&push(&[])).is_empty());
    // a block beside the tip may bring a change of branch
    let far = fake_block(9, "feed");
    assert_eq!(n.message_claims(&push(&[far.clone()])).len(), 1);
    // and so may any block once one above the tip is stashed
    n.apply_incoming(&far, &v).unwrap();
    assert_eq!(n.message_claims(&push(&[next])).len(), 1);
}

#[test]
fn handshakes_and_numbers() {
    let h = encode_handshake(MAGIC, VERSION, 77);
    assert_eq!(h, [0x54, 0x42, 0x51, 0x50, 3, 0, 0, 0, 77, 0, 0, 0, 0, 0, 0, 0]);
    assert_eq!(decode_handshake(&h).unwrap(), (0x5051_4254, 3, 77));
    assert!(matches!(decode_handshake(&h[..15]), Err(NetError::Truncated)));
    assert_eq!(decode_u64(&encode_u64(u64::MAX)).unwrap(), u64::MAX);
    assert_eq!(encode_u64(0x0102), [2, 1, 0, 0, 0, 0, 0, 0]);
    assert!(matches!(decode_u64(&[1, 2, 3]), Err(NetError::Truncated)));
}

#[test]
fn frames_carry_messages() {
    let mut w = vec![0xEE];
    write_message(&mut w, MSG_PING, &[1, 2]).unwrap();
    assert_eq!(w, [0xEE, 3, 0, 0, 0, MSG_PING, 1, 2]);
    write_message(&mut w, MSG_GETADDR, &[]).unwrap();
    let mut r = Reader::new(&w[1..]);
    let m = read_message(&mut r).unwrap();
    assert_eq!((m.kind, m.payload), (MSG_PING, vec![1, 2]));
    let m = read_message(&mut r).unwrap();
    assert_eq!((m.kind, m.payload.len()), (MSG_GETADDR, 0));
    // end of stream
    let e = read_message(&mut r).unwrap_err();
    assert!(matches!(&e, NetError::Io(io) if io.kind == IoKind::UnexpectedEof));
    // cut inside the data
    let e = read_frame(&mut Reader::new(&[3, 0, 0, 0, 1])).unwrap_err();
    assert!(matches!(&e, NetError::Io(io) if io.kind == IoKind::UnexpectedEof));
    // an empty frame holds no message
    assert!(matches!(read_message(&mut Reader::new(&[0, 0, 0, 0])), Err(NetError::Truncated)));
    assert_eq!(read_frame(&mut Reader::new(&[0, 0, 0, 0])).unwrap(), Vec::<u8>::new());
    // too large, both ways
    let big = (MAX_MSG as u32 + 1).to_le_bytes();
    assert!(matches!(read_frame(&mut Reader::new(&big)), Err(NetError::TooLarge)));
    let mut w = Vec::new();
    assert!(matches!(write_frame(&mut w, &vec![0; MAX_MSG + 1]), Err(NetError::TooLarge)));
    assert!(matches!(write_message(&mut w, 1, &vec![0; MAX_MSG]), Err(NetError::TooLarge)));
    assert!(w.is_empty());
    write_frame(&mut w, &vec![0; MAX_MSG]).unwrap();
    assert_eq!(w.len(), MAX_MSG + 4);
    assert_eq!(frame_len([5, 0, 0, 0]).unwrap(), 5);
    assert_eq!(frame_len((MAX_MSG as u32).to_le_bytes()).unwrap(), MAX_MSG);
    assert!(matches!(frame_len(big), Err(NetError::TooLarge)));
}

#[test]
fn connections_are_answered() {
    let (st, blocks) = mined_chain(2);
    let mut n = node_with(st, blocks, "me:1");
    let v = Verified::new();
    let ask = |kind: u8, payload: Vec<u8>| Message { kind, payload };

    // greeting
    let bad = n.greet(&ask(MSG_PING, vec![])).unwrap_err();
    assert!(matches!(bad, NetError::UnknownMsg(MSG_PING)));
    let bad = n.greet(&ask(MSG_HANDSHAKE, encode_handshake(1, VERSION, 0))).unwrap_err();
    assert!(matches!(bad, NetError::BadMagic));
    let bad = n.greet(&ask(MSG_HANDSHAKE, vec![1])).unwrap_err();
    assert!(matches!(bad, NetError::Truncated));
    let hi = n.greet(&ask(MSG_HANDSHAKE, encode_handshake(MAGIC, 1, 0))).unwrap();
    assert_eq!(decode_handshake(&hi.payload).unwrap(), (MAGIC, VERSION, 2));

    // ping
    let pong = n.on_message(&ask(MSG_PING, encode_u64(99)), 0, &v).unwrap().unwrap();
    assert_eq!((pong.kind, decode_u64(&pong.payload).unwrap()), (MSG_PONG, 99));
    assert!(matches!(n.on_message(&ask(MSG_PING, vec![]), 0, &v), Err(NetError::Truncated)));

    // blocks above a height
    let r = n.on_message(&ask(MSG_GETBLOCKS, encode_u64(1)), 0, &v).unwrap().unwrap();
    assert_eq!(r.kind, MSG_BLOCKS);
    let got = decode_blocks(&r.payload).unwrap();
    assert_eq!((got.len(), got[0].height), (1, 2));

    // addresses: our own is never taken up
    let told = vec!["me:1".to_string(), "you:2".to_string(), "bad".to_string()];
    assert!(n.on_message(&ask(MSG_ADDR, encode_addrs(&told)), 7, &v).unwrap().is_none());
    let r = n.on_message(&ask(MSG_GETADDR, vec![]), 0, &v).unwrap().unwrap();
    assert_eq!(r.kind, MSG_ADDR);
    assert_eq!(decode_addrs(&r.payload).unwrap(), vec!["you:2".to_string()]);

    // the pool
    let r = n.on_message(&ask(MSG_GETMEMPOOL, vec![]), 0, &v).unwrap().unwrap();
    assert_eq!((r.kind, r.payload), (MSG_MEMPOOL, vec![0, 0, 0, 0]));
    let unsigned = Transaction { version: 1, inputs: vec![], outputs: vec![], locktime: 4 };
    let body = Mempool::encode_all(&[&unsigned]);
    assert!(n.on_message(&ask(MSG_TX, body), 0, &v).unwrap().is_none());
    assert_eq!(n.pool.len(), 1);

    // a bad block drops the connection; the good ones before it stay
    let mut st2 = n.chain.clone();
    let b3 = mine_on(&mut st2, 1, 3);
    let mut bad = fake_block(4, &b3.hash());
    bad.nonce = 0;
    while bad.meets_target(D) {
        bad.nonce += 1;
    }
    let body = encode_blocks(&[b3, bad]);
    let e = n.on_message(&ask(MSG_BLOCKS, body), 0, &v).unwrap_err();
    assert!(matches!(e, NetError::BadBlock(NodeError::BadPoW)));
    assert_eq!(n.best_height(), 3);

    // anything else is unknown
    for kind in [0, MSG_HANDSHAKE, MSG_PONG, MSG_MEMPOOL, 0x0B, 0xFF] {
        let e = n.on_message(&ask(kind, vec![]), 0, &v).unwrap_err();
        assert!(matches!(e, NetError::UnknownMsg(k) if k == kind));
    }
}

#[test]
fn silent_peers_are_left_politely() {
    let io = |kind: IoKind| NetError::Io(IoError { kind, text: "gone".to_string() });
    assert!(read_failed(io(IoKind::UnexpectedEof)).is_ok());
    assert!(read_failed(io(IoKind::WouldBlock)).is_ok());
    assert!(read_failed(io(IoKind::TimedOut)).is_ok());
    assert!(read_failed(io(IoKind::Other)).is_err());
    assert!(matches!(read_failed(NetError::TooLarge), Err(NetError::TooLarge)));
}

#[test]
fn gossip_rounds_expect_the_right_messages() {
    let mut n = node_with(ChainState::new(D), vec![], "me:1");
    let v = Verified::new();
    let (mut g, hello) = GossipSession::start(&n, "you:2");
    assert_eq!(hello.kind, MSG_HANDSHAKE);
    let wrong = Message { kind: MSG_PONG, payload: vec![] };
    assert!(matches!(g.step(&mut n, &wrong, 0, &v), Err(NetError::UnknownMsg(MSG_PONG))));
    let hi = Message { kind: MSG_HANDSHAKE, payload: encode_handshake(MAGIC, VERSION, 5) };
    let sends = g.step(&mut n, &hi, 0, &v).unwrap();
    assert_eq!(sends.iter().map(|m| m.kind).collect::<Vec<u8>>(), [MSG_ADDR, MSG_GETADDR]);
    assert_eq!(decode_addrs(&sends[0].payload).unwrap(), vec!["me:1".to_string()]);
    assert!(matches!(g.step(&mut n, &wrong, 0, &v), Err(NetError::UnknownMsg(MSG_PONG))));
    let book = Message { kind: MSG_ADDR, payload: encode_addrs(&[]) };
    let sends = g.step(&mut n, &book, 0, &v).unwrap();
    assert_eq!(sends[0].kind, MSG_GETBLOCKS);
    assert_eq!(decode_u64(&sends[0].payload).unwrap(), 0);
    assert!(matches!(g.step(&mut n, &wrong, 0, &v), Err(NetError::UnknownMsg(MSG_PONG))));
    let none = Message { kind: MSG_BLOCKS, payload: encode_blocks(&[]) };
    let sends = g.step(&mut n, &none, 0, &v).unwrap();
    assert_eq!(sends.iter().map(|m| m.kind).collect::<Vec<u8>>(), [MSG_TX, MSG_GETMEMPOOL]);
    assert!(matches!(g.step(&mut n, &wrong, 0, &v), Err(NetError::UnknownMsg(MSG_PONG))));
    let pool = Message { kind: MSG_MEMPOOL, payload: Mempool::encode_all(&[]) };
    assert!(g.step(&mut n, &pool, 0, &v).unwrap().is_empty());
    assert_eq!(g.stage, GossipStage::Finished);
    assert!(g.step(&mut n, &pool, 0, &v).is_err());
}

#[test]
fn targets_are_sorted_and_bounded() {
    let s = |v: &[&str]| v.iter().map(|x| x.to_string()).collect::<Vec<String>>();
    let got = gossip_targets(&s(&["b:1", "a:1", "b:1"]), &s(&["a:1", "é:1", "aa:1", "Z:9", "Z:9"]));
    assert_eq!(got, s(&["a:1", "b:1", "Z:9", "aa:1", "é:1"]));
    let many: Vec<String> = (0..20).rev().map(|i| format!("{i:02}:1")).collect();
    let mut sorted = many.clone();
    sorted.sort();
    assert_eq!(gossip_targets(&many, &vec![]), sorted[..MAX_TARGETS].to_vec());
    assert_eq!(gossip_targets(&vec![], &many), sorted[..MAX_TARGETS].to_vec());
}

#[test]
fn seeds_are_dialled_first() {
    let seeds = vec!["zz:1".to_string()];
    let learned: Vec<String> = (0..8).map(|i| format!("0{i}:1")).collect();
    let got = gossip_targets(&seeds, &learned);
    assert_eq!(got[0], "zz:1");
    assert_eq!(got[1..], learned[..7]);
    // as many seeds as the bound leave room for nothing else
    let seeds: Vec<String> = (0..9).map(|i| format!("s{i}:1")).collect();
    assert_eq!(gossip_targets(&seeds, &learned), seeds[..MAX_TARGETS].to_vec());
    assert!(gossip_targets(&vec![], &vec![]).is_empty());
}

#[test]
fn net_errors_in_words() {
    let io = NetError::Io(IoError { kind: IoKind::Other, text: "broken pipe".to_string() });
    assert_eq!(io.describe(), "io: broken pipe");
    assert_eq!(NetError::TooLarge.describe(), "frame exceeds MAX_MSG");
    assert_eq!(NetError::Truncated.describe(), "payload truncated mid-field");
    assert_eq!(NetError::BadMagic.describe(), "peer magic mismatch");
    assert_eq!(NetError::UnknownMsg(0x0B).describe(), "unknown message type 0x0b");
    assert_eq!(
        NetError::BadBlock(NodeError::BadPoW).describe(),
        "peer sent invalid block: block does not meet PoW target"
    );
}
