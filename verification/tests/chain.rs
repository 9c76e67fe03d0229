//! Transactions, blocks and the chain state.
use pqbit::block::{coinbase, leading_zero_bits, mine_block, Block};
use pqbit::chain::{ChainState, NodeError};
use pqbit::claims::ClaimScope;
use pqbit::sig::{
    keygen_outcome, keygen_request, request_from, request_with, sign_outcome, verify_verdict,
    PqBitError, SigAlgo, SigClaim, Verified, KEYGEN_ENTROPY,
};
use pqbit::tx::{Transaction, TxIn, TxOut};

const D: u32 = 8;

fn key(tag: u8) -> Vec<u8> {
    vec![tag; 1312]
}

/// A stand-in for a signature: the signer's tag in front of the message.
fn sign(tag: u8, message: &[u8]) -> Vec<u8> {
    let mut s = vec![tag];
    s.extend_from_slice(message);
    s
}

/// Whether a stand-in signature holds.
fn check(c: &SigClaim) -> Result<bool, PqBitError> {
    if c.pubkey.len() != 1312 {
        return Err(PqBitError::MalformedTransaction);
    }
    Ok(c.signature == sign(c.pubkey[0], &c.message))
}

/// Checks every claim that the block can make on the state.
fn settle(state: &ChainState, block: &Block) -> Verified {
    let mut scope = ClaimScope::new();
    scope.add_coins(&state.utxos);
    scope.add_txs(&block.transactions);
    let mut v = Verified::new();
    for c in scope.claims() {
        let outcome = check(&c);
        v.settle(c, outcome);
    }
    v
}

fn apply(state: &mut ChainState, block: &Block, reward: u64) -> Result<(), NodeError> {
    let v = settle(state, block);
    state.apply_block(block, reward, &v)
}

fn mine_next(state: &ChainState, miner_pk: Vec<u8>, reward: u64) -> Block {
    let b = Block {
        height: state.tip_height + 1,
        prev_hash: state.tip_hash.clone(),
        timestamp: 1_700_000_000 + state.tip_height,
        transactions: vec![coinbase(miner_pk, reward, state.tip_height + 1)],
        nonce: 0,
    };
    mine_block(b, state.difficulty, 10_000_000).expect("mine within budget")
}

fn mine_with(state: &ChainState, pk: Vec<u8>, spends: Vec<Transaction>, timestamp: u64) -> Block {
    let mut transactions = vec![coinbase(pk, 50, state.tip_height + 1)];
    transactions.extend(spends);
    let b = Block {
        height: state.tip_height + 1,
        prev_hash: state.tip_hash.clone(),
        timestamp,
        transactions,
        nonce: 0,
    };
    mine_block(b, D, 10_000_000).unwrap()
}

fn first_utxo(state: &ChainState) -> (String, u32, u64) {
    let u = &state.utxos.entries()[0];
    (u.txid.clone(), u.vout, u.value)
}

fn spend(txid: &str, vout: u32, outputs: Vec<TxOut>, tag: u8) -> Transaction {
    let mut tx = Transaction {
        version: 1,
        inputs: vec![TxIn {
            prev_txid: hex::decode(txid).unwrap().try_into().unwrap(),
            vout,
            signature: vec![],
        }],
        outputs,
        locktime: 0,
    };
    tx.inputs[0].signature = sign(tag, &tx.sighash());
    tx
}

fn out(value: u64, pubkey: Vec<u8>) -> TxOut {
    TxOut { value, pubkey }
}

#[test]
fn sighash_is_deterministic() {
    let mut tx = Transaction::default();
    tx.inputs.push(TxIn { prev_txid: [7u8; 32], vout: 0, signature: vec![] });
    tx.outputs.push(TxOut { value: 100_000_000, pubkey: vec![1u8; 1312] });
    assert_eq!(tx.sighash(), tx.sighash(), "sighash must be deterministic");
}

#[test]
fn sighash_has_the_known_value() {
    assert_eq!(
        Transaction::default().txid(),
        "7ef0ca626bbb058dd443bb78e33b888bdec8295c96e51f5545f96370870c10b9"
    );
    let tx = Transaction {
        version: 1,
        inputs: vec![TxIn { prev_txid: [7u8; 32], vout: 0, signature: vec![9, 9] }],
        outputs: vec![out(100_000_000, vec![1, 1, 1])],
        locktime: 0,
    };
    assert_eq!(
        hex::encode(tx.sighash()),
        "c3cd256988d37583af637da889f9b3ba96e1d09e3a8b9678fbd6310576b47756"
    );
    assert_eq!(tx.sighash_preimage().len(), 4 + 36 + 8 + 4 + 3 + 4);
}

#[test]
fn sighash_ignores_signatures() {
    let mut tx = spend(&"07".repeat(32), 3, vec![out(5, key(2))], 1);
    let before = tx.sighash();
    tx.inputs[0].signature = vec![0xAA; 100];
    assert_eq!(tx.sighash(), before);
    tx.inputs[0].vout = 4;
    assert_ne!(tx.sighash(), before);
}

#[test]
fn block_hash_has_the_known_value() {
    let b = Block {
        height: 1,
        prev_hash: String::new(),
        timestamp: 0,
        transactions: vec![],
        nonce: 0,
    };
    assert_eq!(b.hash(), "9b202ab754d0463165b0c71bca50d835f99d5551c77ee71eb8c23e47503cab77");
    let b = Block {
        height: 2,
        prev_hash: "ab".to_string(),
        timestamp: 5,
        transactions: vec![],
        nonce: 9,
    };
    assert_eq!(b.hash(), "1175609c4949b7f768a4f67ee76f45b1dd7316ffcb130f1f15b40e7ea28d99bc");
    assert_eq!(b.header_preimage().len(), 8 + 2 + 8 + 8);
}

#[test]
fn mining_finds_the_first_nonce() {
    let b = Block {
        height: 1,
        prev_hash: String::new(),
        timestamp: 1_700_000_000,
        transactions: vec![coinbase(vec![0xAB; 4], 50, 1)],
        nonce: 77,
    };
    assert_eq!(
        b.transactions[0].txid(),
        "86fa7fc625bd39bb8d4b7a1f262084ec407a4eedb574d5e54142e9cf8f37b923"
    );
    assert!(mine_block(b.clone(), D, 122).is_none(), "budget ends just before");
    let mined = mine_block(b, D, 123).expect("found");
    assert_eq!(mined.nonce, 122);
    assert_eq!(mined.hash(), "00567e9f92c08b9e70875e65fb3664eb3b1004d130dab72a887a5c14ac0a6fea");
    assert!(mined.meets_target(9));
    assert!(!mined.meets_target(10));
}

#[test]
fn leading_zero_bits_counts() {
    assert_eq!(leading_zero_bits(&[]), 0);
    assert_eq!(leading_zero_bits(&[0x80]), 0);
    assert_eq!(leading_zero_bits(&[0x01]), 7);
    assert_eq!(leading_zero_bits(&[0x00, 0x10, 0x00]), 11);
    assert_eq!(leading_zero_bits(&[0x00, 0x00]), 16);
    for b in 0..=255u8 {
        assert_eq!(leading_zero_bits(&[b]), b.leading_zeros() as usize);
    }
}

#[test]
fn coinbase_commits_to_height() {
    let a = coinbase(key(1), 50, 1);
    let b = coinbase(key(1), 50, 2);
    assert_eq!(a.inputs[0].vout, u32::MAX);
    assert_eq!(a.inputs[0].prev_txid[0], 1);
    assert_eq!(b.inputs[0].prev_txid[0], 2);
    assert_ne!(a.txid(), b.txid());
    assert_eq!(a.outputs[0].value, 50);
}

#[test]
fn genesis_mines_and_applies() {
    let mut st = ChainState::new(D);
    let blk = mine_next(&st, key(0xA1), 50);
    apply(&mut st, &blk, 50).unwrap();
    assert_eq!(st.tip_height, 1);
    assert_eq!(st.total_supply, 50);
    assert_eq!(st.utxos.len(), 1);
    assert_eq!(st.tip_hash, blk.hash());
}

#[test]
fn pow_rejects_low_work_block() {
    let mut st = ChainState::new(D);
    let mut blk = Block {
        height: 1,
        prev_hash: String::new(),
        timestamp: 0,
        transactions: vec![coinbase(key(0xA1), 50, 1)],
        nonce: 0,
    };
    // find a nonce that does NOT meet target (easy at D=8: most don't)
    let mut found_low = false;
    for nonce in 0..10_000u64 {
        blk.nonce = nonce;
        if !blk.meets_target(D) {
            found_low = true;
            break;
        }
    }
    assert!(found_low, "expected a low-work nonce to exist");
    assert_eq!(st.apply_block(&blk, 50, &Verified::new()), Err(NodeError::BadPoW));
}

#[test]
fn spend_requires_valid_pq_signature() {
    // build chain of 2 blocks: miner A mines twice
    let mut st = ChainState::new(D);
    for _ in 0..2 {
        let blk = mine_next(&st, key(0xA1), 50);
        apply(&mut st, &blk, 50).unwrap();
    }

    // A spends one UTXO to B with a signature that holds
    let (txid, vout, value) = first_utxo(&st);
    let s = spend(&txid, vout, vec![out(value, key(0xB2))], 0xA1);
    let blk = mine_with(&st, key(0xA1), vec![s], 1_700_000_100);
    apply(&mut st, &blk, 50).unwrap();
    assert_eq!(st.tip_height, 3);
    assert_eq!(st.total_supply, 150);
    assert_eq!(st.balance_of(&key(0xB2)), 50);
}

#[test]
fn tampered_signature_is_rejected() {
    let mut st = ChainState::new(D);
    let blk = mine_next(&st, key(0xA1), 50);
    apply(&mut st, &blk, 50).unwrap();

    let (txid, vout, value) = first_utxo(&st);
    let mut s = spend(&txid, vout, vec![out(value, key(0xB2))], 0xA1);
    s.inputs[0].signature = vec![0xAA; 100]; // garbage
    let blk = mine_with(&st, key(0xA1), vec![s], 1_700_000_200);
    assert_eq!(apply(&mut st, &blk, 50), Err(NodeError::BadSignature));
    assert_eq!(st.tip_height, 1, "a refused block changes nothing");
    assert_eq!(st.total_supply, 50);
}

#[test]
fn double_spend_is_impossible() {
    let mut st = ChainState::new(D);
    let blk = mine_next(&st, key(0xA1), 50);
    apply(&mut st, &blk, 50).unwrap();
    let (txid, vout, value) = first_utxo(&st);

    // spend 1: B gets coins (block 2)
    let s1 = spend(&txid, vout, vec![out(value, key(0xB2))], 0xA1);
    let blk1 = mine_with(&st, key(0xA1), vec![s1], 1_700_000_300);
    apply(&mut st, &blk1, 50).unwrap();

    // spend 2: same UTXO to C (block 3): must fail, UTXO already consumed
    let s2 = spend(&txid, vout, vec![out(value, key(0xC3))], 0xA1);
    let blk2 = mine_with(&st, key(0xA1), vec![s2], 1_700_000_400);
    assert_eq!(apply(&mut st, &blk2, 50), Err(NodeError::UnknownUtxo));
}

#[test]
fn one_transaction_cannot_spend_an_output_twice() {
    let mut st = ChainState::new(D);
    let blk = mine_next(&st, key(0xA1), 50);
    apply(&mut st, &blk, 50).unwrap();
    let (txid, vout, _) = first_utxo(&st);
    let mut s = spend(&txid, vout, vec![out(100, key(0xB2))], 0xA1);
    let again = s.inputs[0].clone();
    s.inputs.push(again);
    let sig = sign(0xA1, &s.sighash());
    s.inputs[0].signature = sig.clone();
    s.inputs[1].signature = sig;
    let blk = mine_with(&st, key(0xA1), vec![s.clone()], 1);
    assert_eq!(apply(&mut st, &blk, 50), Err(NodeError::DoubleSpend));
    let mut v = Verified::new();
    v.settle(
        SigClaim {
            pubkey: key(0xA1),
            message: s.sighash().to_vec(),
            signature: s.inputs[0].signature.clone(),
        },
        Ok(true),
    );
    assert_eq!(st.validate_spend(&s, &v), Err(NodeError::DoubleSpend));
    assert_eq!(st.apply_spend(&s, &v), Err(NodeError::DoubleSpend));
    assert_eq!(st.utxos.len(), 1);
}

#[test]
fn outputs_may_not_exceed_inputs() {
    let mut st = ChainState::new(D);
    let blk = mine_next(&st, key(0xA1), 50);
    apply(&mut st, &blk, 50).unwrap();
    let (txid, vout, value) = first_utxo(&st);
    let s = spend(&txid, vout, vec![out(value, key(1)), out(1, key(2))], 0xA1);
    let blk = mine_with(&st, key(0xA1), vec![s], 1);
    assert_eq!(apply(&mut st, &blk, 50), Err(NodeError::Overspend));
    // amounts are summed without wrapping
    let s = spend(&txid, vout, vec![out(u64::MAX, key(1)), out(51, key(2))], 0xA1);
    let blk = mine_with(&st, key(0xA1), vec![s], 1);
    assert_eq!(apply(&mut st, &blk, 50), Err(NodeError::Overspend));
    // change is fine, and burning too
    let s = spend(&txid, vout, vec![out(20, key(1)), out(29, key(2))], 0xA1);
    let blk = mine_with(&st, key(0xA1), vec![s], 1);
    apply(&mut st, &blk, 50).unwrap();
    assert_eq!(st.balance_of(&key(1)), 20);
    assert_eq!(st.balance_of(&key(2)), 29);
    assert_eq!(st.utxos.len(), 3);
    // what can be spent is worth no more than what was minted
    let worth: u64 = st.utxos.entries().iter().map(|u| u.value).sum();
    assert_eq!((worth, st.total_supply), (99, 100));
}

#[test]
fn a_spend_can_follow_another_in_one_block() {
    let mut st = ChainState::new(D);
    let blk = mine_next(&st, key(0xA1), 50);
    apply(&mut st, &blk, 50).unwrap();
    let (txid, vout, value) = first_utxo(&st);
    let s1 = spend(&txid, vout, vec![out(value, key(0xB2))], 0xA1);
    let s2 = spend(&s1.txid(), 0, vec![out(value, key(0xC3))], 0xB2);
    // in the wrong order the prevout does not exist yet
    let blk = mine_with(&st, key(0xA1), vec![s2.clone(), s1.clone()], 1);
    assert_eq!(apply(&mut st, &blk, 50), Err(NodeError::UnknownUtxo));
    let blk = mine_with(&st, key(0xA1), vec![s1, s2], 1);
    apply(&mut st, &blk, 50).unwrap();
    assert_eq!(st.balance_of(&key(0xB2)), 0);
    assert_eq!(st.balance_of(&key(0xC3)), 50);
}

#[test]
fn refused_block_leaves_the_state_as_it_was() {
    let mut st = ChainState::new(D);
    let blk = mine_next(&st, key(0xA1), 50);
    apply(&mut st, &blk, 50).unwrap();
    let (txid, vout, value) = first_utxo(&st);
    let good = spend(&txid, vout, vec![out(value, key(0xB2))], 0xA1);
    let bad = spend(&"00".repeat(32), 0, vec![], 0xA1);
    let blk = mine_with(&st, key(0xA1), vec![good, bad], 1);
    let (hash, supply) = (st.tip_hash.clone(), st.total_supply);
    assert_eq!(apply(&mut st, &blk, 50), Err(NodeError::UnknownUtxo));
    assert_eq!((st.tip_height, st.tip_hash.clone(), st.total_supply), (1, hash, supply));
    assert!(st.utxos.contains_key(&(txid, vout)), "the first spend did not happen");
}

#[test]
fn coinbase_is_capped_by_the_reward() {
    let mut st = ChainState::new(0);
    let v = Verified::new();
    let mut b = mine_next(&st, key(1), 51);
    assert_eq!(st.apply_block(&b, 50, &v), Err(NodeError::Overspend));
    b.transactions[0].outputs.clear();
    assert_eq!(st.apply_block(&b, 50, &v), Err(NodeError::Overspend));
    b.transactions.clear();
    st.apply_block(&b, 50, &v).unwrap();
    assert_eq!((st.tip_height, st.total_supply, st.utxos.len()), (1, 0, 0));
    // less than the reward may be claimed
    let b = mine_next(&st, key(1), 7);
    st.apply_block(&b, 50, &v).unwrap();
    assert_eq!(st.total_supply, 7);
    // the supply cannot pass what 64 bits hold
    let b = mine_next(&st, key(1), u64::MAX);
    assert_eq!(st.apply_block(&b, u64::MAX, &v), Err(NodeError::Overspend));
    assert_eq!(st.total_supply, 7);
}

#[test]
fn blocks_have_to_chain() {
    let mut st = ChainState::new(0);
    let v = Verified::new();
    let mut b = mine_next(&st, key(1), 50);
    b.height = 2;
    assert_eq!(st.apply_block(&b, 50, &v), Err(NodeError::BadPrevHash));
    b.height = 1;
    b.prev_hash = "00".to_string();
    assert_eq!(st.apply_block(&b, 50, &v), Err(NodeError::BadPrevHash));
    st.tip_height = u64::MAX;
    b.height = 0;
    b.prev_hash = String::new();
    assert_eq!(st.apply_block(&b, 50, &v), Err(NodeError::BadPrevHash));
}

#[test]
fn balances_count_each_output_once() {
    let mut st = ChainState::new(0);
    assert!(st.utxos.is_empty());
    st.utxos.insert("aa".to_string(), 0, u64::MAX, key(1));
    st.utxos.insert("aa".to_string(), 1, u64::MAX, key(1));
    st.utxos.insert("bb".to_string(), 0, 5, key(2));
    assert_eq!(st.balance_of(&key(1)), 2 * (u64::MAX as u128));
    assert_eq!(st.utxos_of(&key(1)).len(), 2);
    assert_eq!(st.balance_of(&key(3)), 0);
    st.utxos.insert("aa".to_string(), 0, 1, key(1));
    assert_eq!(st.balance_of(&key(1)), u64::MAX as u128 + 1);
    assert!(st.utxos.remove("aa", 1));
    assert!(!st.utxos.remove("aa", 1));
    assert_eq!(st.utxos.get("aa", 0).unwrap().value, 1);
    assert!(st.utxos.get("aa", 1).is_none());
    let copy = st.clone();
    assert_eq!(copy.utxos.len(), st.utxos.len());
}

#[test]
fn claims_list_what_a_judgement_needs() {
    let mut st = ChainState::new(0);
    st.utxos.insert("07".repeat(32), 0, 5, key(1));
    let s1 = spend(&"07".repeat(32), 0, vec![out(5, key(2))], 1);
    let s2 = spend(&s1.txid(), 0, vec![out(5, key(3))], 2);
    let stranger = spend(&"08".repeat(32), 0, vec![], 1);
    let mut scope = ClaimScope::new();
    scope.add_coins(&st.utxos);
    scope.add_txs(&vec![s1.clone(), s2.clone(), stranger]);
    let claims = scope.claims();
    assert_eq!(claims.len(), 2);
    assert!(claims.iter().any(|c| c.pubkey == key(1) && c.message == s1.sighash()));
    assert!(claims.iter().any(|c| c.pubkey == key(2) && c.message == s2.sighash()));
}

#[test]
fn only_passed_checks_are_recorded() {
    let claim = || SigClaim { pubkey: vec![1], message: vec![2], signature: vec![3] };
    let mut v = Verified::new();
    v.settle(claim(), Ok(false));
    v.settle(claim(), Err(PqBitError::MalformedTransaction));
    assert!(!v.holds(&[1], &[2], &[3]));
    v.settle(claim(), Ok(true));
    assert!(v.holds(&[1], &[2], &[3]));
    assert!(!v.holds(&[1], &[2], &[4]));
}

#[test]
fn signature_layer_maps_outcomes() {
    assert_eq!(verify_verdict(true, true, true), Ok(true));
    assert_eq!(verify_verdict(true, true, false), Ok(false));
    assert_eq!(verify_verdict(false, true, true), Err(PqBitError::MalformedTransaction));
    assert_eq!(verify_verdict(true, false, true), Err(PqBitError::MalformedTransaction));
    assert_eq!(sign_outcome(true, Some(vec![1])), Ok(vec![1]));
    assert_eq!(sign_outcome(true, None), Err(PqBitError::SignatureRejected));
    assert_eq!(sign_outcome(false, Some(vec![1])), Err(PqBitError::MalformedTransaction));
    let kp = keygen_outcome(Some((vec![1], vec![2]))).unwrap();
    assert_eq!((kp.public_key.bytes, kp.secret_key.bytes), (vec![1], vec![2]));
    assert!(matches!(keygen_outcome(None), Err(PqBitError::UnsupportedAlgorithm)));
}

#[test]
fn key_generation_asks_for_fresh_randomness() {
    let a = keygen_request(SigAlgo::MlDsa44).expect("randomness");
    let b = keygen_request(SigAlgo::SlhDsaSha2_128s).expect("randomness");
    assert_eq!(a.entropy.len(), KEYGEN_ENTROPY);
    assert_eq!(b.algo, SigAlgo::SlhDsaSha2_128s);
    assert_ne!(a.entropy, b.entropy);
    assert_ne!(a.entropy, vec![0u8; 128]);
    let fixed = request_with(SigAlgo::MlDsa44, &[7u8; 128]);
    assert_eq!(fixed.entropy, vec![7u8; 128]);
    let drawn = request_from(SigAlgo::SlhDsaSha2_128s, Some([9u8; 128])).expect("drawn");
    assert_eq!((drawn.algo, drawn.entropy), (SigAlgo::SlhDsaSha2_128s, vec![9u8; 128]));
    assert!(request_from(SigAlgo::MlDsa44, None).is_none());
}

#[test]
fn chain_errors_in_words() {
    assert_eq!(NodeError::BadPrevHash.describe(), "prev_hash does not chain");
    assert_eq!(NodeError::BadPoW.describe(), "block does not meet PoW target");
    assert_eq!(NodeError::Overspend.describe(), "outputs exceed inputs");
    assert_eq!(NodeError::BadSignature.describe(), "PQ signature invalid");
    assert_eq!(NodeError::DoubleSpend.describe(), "UTXO spent twice");
    assert_eq!(NodeError::UnknownUtxo.describe(), "input references unknown UTXO");
    assert_eq!(PqBitError::SignatureRejected.describe(), "PQ signature rejected");
    assert_eq!(PqBitError::UnsupportedAlgorithm.describe(), "unsupported signature algorithm");
    assert_eq!(PqBitError::MalformedTransaction.describe(), "malformed transaction");
}
