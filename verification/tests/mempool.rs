//! The pool of unconfirmed transactions.
use pqbit::block::{coinbase, mine_block, Block};
use pqbit::chain::{ChainState, NodeError};
use pqbit::claims::ClaimScope;
use pqbit::codec::{decode_tx, encode_tx};
use pqbit::mempool::{Mempool, MempoolError, MAX_POOL};
use pqbit::sig::{SigClaim, Verified};
use pqbit::tx::{Transaction, TxIn, TxOut};
use pqbit::wire::NetError;

const D: u32 = 8;
const REWARD: u64 = 50;

fn key(tag: u8) -> Vec<u8> {
    vec![tag; 1312]
}

fn sign(tag: u8, message: &[u8]) -> Vec<u8> {
    let mut s = vec![tag];
    s.extend_from_slice(message);
    s
}

/// Checks every claim that the transactions can make on the state.
fn settle(state: &ChainState, txs: &Vec<Transaction>) -> Verified {
    let mut scope = ClaimScope::new();
    scope.add_coins(&state.utxos);
    scope.add_txs(txs);
    let mut v = Verified::new();
    for c in scope.claims() {
        let holds = c.signature == sign(c.pubkey[0], &c.message);
        v.settle(c, Ok(holds));
    }
    v
}

fn accept(pool: &mut Mempool, tx: &Transaction, st: &ChainState) -> Result<(), MempoolError> {
    let v = settle(st, &vec![tx.clone()]);
    pool.accept(tx, st, &v)
}

/// Mine one block paying `pk`, return (state, block).
fn one_block(pk: Vec<u8>) -> (ChainState, Block) {
    let mut st = ChainState::new(D);
    let blk = Block {
        height: st.tip_height + 1,
        prev_hash: st.tip_hash.clone(),
        timestamp: 1_700_000_000,
        transactions: vec![coinbase(pk, REWARD, st.tip_height + 1)],
        nonce: 0,
    };
    let mined = mine_block(blk, D, 2_000_000).expect("mine");
    st.apply_block(&mined, REWARD, &Verified::new()).expect("apply");
    (st, mined)
}

/// A signed spend of the coinbase UTXO to `to`.
fn signed_spend(tag: u8, st: &ChainState, to: Vec<u8>) -> Transaction {
    let u = &st.utxos.entries()[0];
    let mut tx = Transaction {
        version: 1,
        inputs: vec![TxIn {
            prev_txid: hex::decode(&u.txid).unwrap().try_into().unwrap(),
            vout: u.vout,
            signature: vec![],
        }],
        outputs: vec![TxOut { value: u.value, pubkey: to }],
        locktime: 0,
    };
    tx.inputs[0].signature = sign(tag, &tx.sighash());
    tx
}

#[test]
fn accept_validates_rejects_garbage() {
    let (st, _blk) = one_block(key(0xA1));
    let mut pool = Mempool::new();

    // valid spend → accepted
    let good = signed_spend(0xA1, &st, vec![0xCD; 1312]);
    accept(&mut pool, &good, &st).expect("valid accepted");
    assert_eq!(pool.len(), 1);

    // another spend with garbage for a signature → invalid signature
    let mut bad = good.clone();
    bad.inputs[0].signature = vec![0xAA; 100];
    bad.outputs[0].value = 49;
    assert!(matches!(
        accept(&mut pool, &bad, &st),
        Err(MempoolError::Invalid(NodeError::BadSignature))
    ));
}

#[test]
fn duplicate_and_conflict_rejected() {
    let (st, _) = one_block(key(0xA1));
    let mut pool = Mempool::new();

    let tx = signed_spend(0xA1, &st, vec![0xCD; 1312]);
    accept(&mut pool, &tx, &st).expect("first ok");
    assert!(matches!(accept(&mut pool, &tx, &st), Err(MempoolError::Duplicate)));

    // same prevout, different tx (different output) → conflict
    let mut tx2 = tx.clone();
    tx2.outputs[0].pubkey = vec![0xEE; 1312];
    // sighash changed → new txid, but inputs identical → conflicting
    tx2.inputs[0].signature = sign(0xA1, &tx2.sighash());
    assert!(matches!(accept(&mut pool, &tx2, &st), Err(MempoolError::Conflicting)));
}

#[test]
fn remove_mined_drops_tx_and_conflicts() {
    let (st, _) = one_block(key(0xA1));
    let mut pool = Mempool::new();

    let tx = signed_spend(0xA1, &st, vec![0xCD; 1312]);
    accept(&mut pool, &tx, &st).expect("ok");
    pool.remove_mined(&tx);
    assert!(pool.is_empty());

    // re-accept works after removal (prevout released)
    accept(&mut pool, &tx, &st).expect("re-accept after mined");
    assert_eq!(pool.len(), 1);

    // mining a conflicting spend drops it too
    let rival = signed_spend(0xA1, &st, vec![0x11; 1312]);
    pool.remove_mined(&rival);
    assert!(pool.is_empty());
}

#[test]
fn wire_roundtrip() {
    let (st, _) = one_block(key(0xA1));
    let tx = signed_spend(0xA1, &st, vec![0xCD; 1312]);
    let refs = vec![&tx];
    let dec = Mempool::decode_all(&Mempool::encode_all(&refs)).expect("decode");
    assert_eq!(dec.len(), 1);
    assert_eq!(dec[0].sighash(), tx.sighash());
    assert_eq!(dec[0].inputs[0].signature, tx.inputs[0].signature);
}

#[test]
fn truncated_wire_caught() {
    let (st, _) = one_block(key(0xA1));
    let tx = signed_spend(0xA1, &st, vec![0xCD; 1312]);
    let refs = vec![&tx];
    let enc = Mempool::encode_all(&refs);
    assert!(matches!(
        Mempool::decode_all(&enc[..enc.len() - 5]),
        Err(NetError::Truncated)
    ));
}

#[test]
fn mined_block_packs_pooled_spend() {
    // Full miner story: fund, pool a spend, mine a block that packs it,
    // pool drains, UTXO moves to the recipient.
    let (mut st, _) = one_block(key(0xA1));
    let mut pool = Mempool::new();

    let tx = signed_spend(0xA1, &st, key(0xB2));
    accept(&mut pool, &tx, &st).expect("pooled");

    let blk = Block {
        height: st.tip_height + 1,
        prev_hash: st.tip_hash.clone(),
        timestamp: 1_700_000_100,
        transactions: vec![coinbase(key(0xA1), REWARD, st.tip_height + 1), tx.clone()],
        nonce: 0,
    };
    let mined = mine_block(blk, D, 2_000_000).expect("mine");
    let v = settle(&st, &mined.transactions);
    st.apply_block(&mined, REWARD, &v).expect("applied with spend");
    pool.remove_mined(&tx);

    assert!(pool.is_empty(), "pooled tx must drain after mining");
    // recipient now holds the spent value as a UTXO
    let txid = hex::encode(tx.sighash());
    assert!(st.utxos.contains_key(&(txid, 0u32)));
}

#[test]
fn any_cut_of_a_payload_is_caught() {
    let tx = Transaction {
        version: 2,
        inputs: vec![TxIn { prev_txid: [3; 32], vout: 4, signature: vec![5, 6] }],
        outputs: vec![TxOut { value: 7, pubkey: vec![8] }],
        locktime: 9,
    };
    let enc = encode_tx(&tx);
    assert_eq!(enc.len(), 4 + 4 + 4 + 32 + 4 + 4 + 2 + 4 + 8 + 4 + 1);
    for k in 0..enc.len() {
        assert!(matches!(decode_tx(&enc[..k]), Err(NetError::Truncated)));
    }
    let back = decode_tx(&enc).expect("whole");
    assert_eq!(encode_tx(&back), enc);
    assert_eq!((back.version, back.locktime), (2, 9));
    assert_eq!(back.inputs[0].prev_txid, [3; 32]);
    // what follows is ignored
    let mut longer = enc.clone();
    longer.push(0xFF);
    assert!(decode_tx(&longer).is_ok());
}

#[test]
fn counts_and_lengths_are_capped() {
    let mut many = (MAX_POOL as u32 + 1).to_le_bytes().to_vec();
    assert!(matches!(Mempool::decode_all(&many), Err(NetError::TooLarge)));
    many = (MAX_POOL as u32).to_le_bytes().to_vec();
    assert!(matches!(Mempool::decode_all(&many), Err(NetError::Truncated)));
    // version, locktime, one input with a signature of 4 MiB and a byte
    let mut d = vec![0u8; 8];
    d.extend_from_slice(&1u32.to_le_bytes());
    d.extend_from_slice(&[0u8; 36]);
    d.extend_from_slice(&(4 * 1024 * 1024 + 1u32).to_le_bytes());
    assert!(matches!(decode_tx(&d), Err(NetError::TooLarge)));
    // a number of inputs past the cap
    let mut d = vec![0u8; 8];
    d.extend_from_slice(&(4 * 1024 * 1024 + 1u32).to_le_bytes());
    assert!(matches!(decode_tx(&d), Err(NetError::TooLarge)));
}

/// A transaction without inputs or outputs, told apart by its locktime.
fn bare(n: u32) -> Transaction {
    Transaction { version: 1, inputs: vec![], outputs: vec![], locktime: n }
}

#[test]
fn full_pool_drops_its_oldest() {
    let st = ChainState::new(D);
    let v = Verified::new();
    let mut pool = Mempool::new();
    for n in 0..MAX_POOL as u32 {
        pool.accept(&bare(n), &st, &v).expect("room");
    }
    assert_eq!(pool.len(), MAX_POOL);
    assert!(pool.get(&bare(0).txid()).is_some());
    pool.accept(&bare(MAX_POOL as u32), &st, &v).expect("makes room");
    assert_eq!(pool.len(), MAX_POOL);
    assert!(pool.get(&bare(0).txid()).is_none(), "the oldest left");
    assert!(pool.get(&bare(1).txid()).is_some());
    let txs = pool.txs();
    assert_eq!(txs[0].locktime, 1);
    assert_eq!(txs[MAX_POOL - 1].locktime, MAX_POOL as u32);
}

#[test]
fn pool_keeps_first_seen_order() {
    let st = ChainState::new(D);
    let v = Verified::new();
    let mut pool = Mempool::new();
    for n in [5u32, 1, 3] {
        pool.accept(&bare(n), &st, &v).unwrap();
    }
    pool.remove_mined(&bare(1));
    let order: Vec<u32> = pool.txs().iter().map(|t| t.locktime).collect();
    assert_eq!(order, vec![5, 3]);
    let block = Block {
        height: 1,
        prev_hash: String::new(),
        timestamp: 0,
        transactions: vec![bare(5), bare(9)],
        nonce: 0,
    };
    pool.remove_mined_txs(&block);
    assert_eq!(pool.len(), 1);
}

#[test]
fn unknown_and_overspending_are_invalid() {
    let (st, _) = one_block(key(0xA1));
    let mut pool = Mempool::new();
    let mut tx = signed_spend(0xA1, &st, key(1));
    tx.inputs[0].vout = 9;
    assert_eq!(
        accept(&mut pool, &tx, &st),
        Err(MempoolError::Invalid(NodeError::UnknownUtxo))
    );
    let mut tx = signed_spend(0xA1, &st, key(1));
    tx.outputs[0].value = 51;
    tx.inputs[0].signature = sign(0xA1, &tx.sighash());
    assert_eq!(accept(&mut pool, &tx, &st), Err(MempoolError::Invalid(NodeError::Overspend)));
    assert!(pool.is_empty());
}

#[test]
fn claim_of_another_message_does_not_help() {
    let (st, _) = one_block(key(0xA1));
    let mut pool = Mempool::new();
    let tx = signed_spend(0xA1, &st, key(1));
    let mut v = Verified::new();
    v.settle(
        SigClaim {
            pubkey: key(0xA1),
            message: vec![0; 32],
            signature: tx.inputs[0].signature.clone(),
        },
        Ok(true),
    );
    assert_eq!(
        pool.accept(&tx, &st, &v),
        Err(MempoolError::Invalid(NodeError::BadSignature))
    );
}

#[test]
fn mempool_errors_in_words() {
    assert_eq!(
        MempoolError::Invalid(NodeError::BadSignature).describe(),
        "invalid tx: PQ signature invalid"
    );
    assert_eq!(MempoolError::Duplicate.describe(), "duplicate txid");
    assert_eq!(MempoolError::Conflicting.describe(), "conflicts with pooled tx");
    assert_eq!(MempoolError::Full.describe(), "mempool full");
}
