//! Exports and the wallet's spends.
use pqbit::block::mine_block;
use pqbit::chain::ChainState;
use pqbit::claims::ClaimScope;
use pqbit::mempool::Mempool;
use pqbit::sig::{PqBitError, Verified};
use pqbit::wallet::{
    balance_report, build_spend, bytes_from_hex, bytes_to_hex, coinbase_block, dump_utxos,
    first_owned, load_dump, load_extended_dump, self_check, sign_first, trim_text, tx_from_hex,
    tx_to_hex, Owned, TxTextError, WalletError,
};
use pqbit::wire::NetError;

fn funded() -> ChainState {
    let mut st = ChainState::new(4);
    for pk in [vec![0xA1; 3], vec![0xB2; 3], vec![0xA1; 3]] {
        let b = coinbase_block(&st, pk, 50, 7);
        let b = mine_block(b, 4, 1_000_000).expect("mine");
        st.apply_block(&b, 50, &Verified::new()).expect("apply");
    }
    st
}

#[test]
fn exports_load_back() {
    let st = funded();
    let text = dump_utxos(&st, true);
    assert_eq!(text.lines().count(), 3);
    let first = &st.utxos.entries()[0];
    assert_eq!(text.lines().next().unwrap(), format!("50 a1a1a1 {} 0", first.txid));
    let back = load_extended_dump(&text).expect("loads");
    let lenient = load_dump(&text);
    assert_eq!(back.utxos.len(), 3);
    assert_eq!(lenient.utxos.len(), 3);
    for u in st.utxos.entries() {
        let got = back.utxos.get(&u.txid, u.vout).expect("there");
        assert_eq!((got.value, &got.pubkey), (u.value, &u.pubkey));
    }
    assert_eq!((back.tip_height, back.difficulty), (0, 0));
    assert_eq!(dump_utxos(&back, true), text);
}

#[test]
fn balances_come_from_exports() {
    let st = funded();
    for extended in [false, true] {
        let text = dump_utxos(&st, extended);
        assert_eq!(balance_report(&text, "a1a1a1"), (2, 100));
        assert_eq!(balance_report(&text, "A1A1A1"), (2, 100));
        assert_eq!(balance_report(&text, "b2b2b2"), (1, 50));
        assert_eq!(balance_report(&text, "c3"), (0, 0));
        assert_eq!(balance_report(&text, "no hex"), (0, 0));
    }
}

#[test]
fn lenient_reading_passes_over_junk() {
    let raw = "5 aa\r\n  7\taa  \nx aa\n9 zz\n1 2 3\n\n18446744073709551616 aa\n4 bb id 2\n6 bb id x\n";
    let st = load_dump(raw);
    // 5, 7, 0 (no number) and 0 (too large) under aa
    assert_eq!(st.utxos_of(&[0xAA]).len(), 4);
    assert_eq!(st.balance_of(&[0xAA]), 12);
    assert_eq!(st.utxos.get("id", 2).unwrap().value, 4);
    assert_eq!(st.utxos.get("id", 0).unwrap().value, 6);
    assert!(st.utxos.get("", 0).is_some());
    assert_eq!(balance_report("3 zz\n", ""), (0, 0));
}

#[test]
fn strict_reading_names_the_fault() {
    assert!(matches!(load_extended_dump("x aa id 0"), Err(WalletError::BadValue)));
    assert!(matches!(load_extended_dump("1 a id 0"), Err(WalletError::BadKey)));
    assert!(matches!(load_extended_dump("1 aa id -1"), Err(WalletError::BadVout)));
    assert!(matches!(load_extended_dump("1 aa id 4294967296"), Err(WalletError::BadVout)));
    let st = load_extended_dump("1 aa\n2 aa id 4294967295\n2 aa id 4294967295 more\n").unwrap();
    assert_eq!(st.utxos.len(), 1);
    assert_eq!(st.utxos.get("id", u32::MAX).unwrap().value, 2);
}

#[test]
fn spends_are_built_from_owned_outputs() {
    let id = "07".repeat(32);
    let raw = format!("9 bb {id} 1\n8 aa\n7 aa {id} 2\n6 aa {id} 3\n");
    let owned = first_owned(&raw, "aa").expect("ours");
    assert_eq!((owned.value, owned.txid.as_str(), owned.vout), (7, id.as_str(), 2));
    assert!(matches!(first_owned(&raw, "AA"), Err(WalletError::NoOwnedUtxo)));
    assert!(matches!(first_owned("x aa t 0\n1 aa t 0", "aa"), Err(WalletError::BadValue)));
    assert!(matches!(first_owned("1 aa t x", "aa"), Err(WalletError::BadVout)));

    let tx = build_spend(&owned, vec![0xCC]).expect("built");
    assert_eq!((tx.version, tx.locktime), (1, 0));
    assert_eq!(tx.inputs[0].prev_txid, [7u8; 32]);
    assert_eq!((tx.inputs[0].vout, tx.inputs[0].signature.len()), (2, 0));
    assert_eq!((tx.outputs[0].value, tx.outputs[0].pubkey.clone()), (7, vec![0xCC]));
    let short = Owned { value: 1, txid: "07".to_string(), vout: 0 };
    assert!(matches!(build_spend(&short, vec![]), Err(WalletError::BadTxid)));
    let odd = Owned { value: 1, txid: "zz".repeat(32), vout: 0 };
    assert!(matches!(build_spend(&odd, vec![]), Err(WalletError::BadTxid)));
}

#[test]
fn wallet_cycle_ends_in_the_pool() {
    let st = funded();
    let text = dump_utxos(&st, true);
    let owned = first_owned(&text, "b2b2b2").expect("ours");
    let mut tx = build_spend(&owned, vec![0xD4]).expect("built");
    let digest = tx.sighash();
    sign_first(&mut tx, vec![1, 2, 3]);
    assert_eq!(tx.sighash(), digest, "signing keeps the digest");
    assert!(self_check(Ok(true)));
    assert!(!self_check(Ok(false)));
    assert!(!self_check(Err(PqBitError::MalformedTransaction)));

    // hand it over as text, and judge it against the export
    let wire = format!("  {}\n", tx_to_hex(&tx));
    let tx = tx_from_hex(&wire).expect("reads back");
    let st = load_extended_dump(&text).unwrap();
    let mut scope = ClaimScope::new();
    scope.add_coins(&st.utxos);
    scope.add_txs(&vec![tx.clone()]);
    let mut v = Verified::new();
    for c in scope.claims() {
        assert_eq!((c.pubkey.as_slice(), c.signature.as_slice()), (&[0xB2; 3][..], &[1, 2, 3][..]));
        v.settle(c, Ok(true));
    }
    let mut pool = Mempool::new();
    pool.accept(&tx, &st, &v).expect("accepted");
    assert_eq!(pool.len(), 1);
}

#[test]
fn transactions_as_text_can_be_wrong() {
    assert!(matches!(tx_from_hex("xyz"), Err(TxTextError::NotHex)));
    assert!(matches!(tx_from_hex("0"), Err(TxTextError::NotHex)));
    assert!(matches!(tx_from_hex("00 00"), Err(TxTextError::NotHex)));
    assert!(matches!(tx_from_hex("00"), Err(TxTextError::Wire(NetError::Truncated))));
    assert!(matches!(tx_from_hex(""), Err(TxTextError::Wire(NetError::Truncated))));
}

#[test]
fn hex_both_ways() {
    assert_eq!(bytes_to_hex(&[0x00, 0x0F, 0xA0, 0xFF]), "000fa0ff");
    assert_eq!(bytes_from_hex("000fA0Ff"), Some(vec![0x00, 0x0F, 0xA0, 0xFF]));
    assert_eq!(bytes_from_hex(""), Some(vec![]));
    assert_eq!(bytes_from_hex("0"), None);
    assert_eq!(bytes_from_hex("0g"), None);
    assert_eq!(bytes_from_hex("éé"), None);
}

#[test]
fn white_space_is_trimmed() {
    assert_eq!(trim_text(" \t\u{a0}a b\r\n"), "a b");
    assert_eq!(trim_text("   "), "");
    assert_eq!(trim_text(""), "");
}
