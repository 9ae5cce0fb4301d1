use hybrid_store::{Entry, HybridWalletDatabase, ProofInfo, ProofState, Transaction, TransactionDirection, WalletError};

fn make_proof(y: u8, mint: &[u8], unit: &[u8], state: ProofState, cond: Option<&[u8]>) -> ProofInfo {
    ProofInfo {
        y: vec![y; 33],
        mint_url: mint.to_vec(),
        unit: unit.to_vec(),
        state,
        spending_condition: cond.map(|c| c.to_vec()),
        body: vec![y],
    }
}

fn ys(ps: &[ProofInfo]) -> Vec<u8> {
    ps.iter().map(|p| p.y[0]).collect()
}

const G: [u8; 33] = [
    0x02, 0x79, 0xbe, 0x66, 0x7e, 0xf9, 0xdc, 0xbb, 0xac, 0x55, 0xa0, 0x62, 0x95, 0xce, 0x87, 0x0b, 0x07, 0x02, 0x9b,
    0xfc, 0xdb, 0x2d, 0xce, 0x28, 0xd9, 0x59, 0xf2, 0x81, 0x5b, 0x16, 0xf8, 0x17, 0x98,
];

#[test]
fn counter_adds_increments() {
    let mut db = HybridWalletDatabase::new(None);
    db.add_mint(b"https://mint.example".to_vec(), None);
    assert_eq!(db.increment_keyset_counter(&b"k1".to_vec(), 5), Ok(5));
    assert_eq!(db.increment_keyset_counter(&b"k1".to_vec(), 3), Ok(8));
    assert_eq!(db.increment_keyset_counter(&b"k2".to_vec(), 0), Ok(0));
}

#[test]
fn counter_refuses_overflow() {
    let mut db = HybridWalletDatabase::new(None);
    assert_eq!(db.increment_keyset_counter(&b"k1".to_vec(), u32::MAX), Ok(u32::MAX));
    assert_eq!(db.increment_keyset_counter(&b"k1".to_vec(), 1), Err(WalletError::CounterOverflow));
    assert_eq!(db.increment_keyset_counter(&b"k1".to_vec(), 0), Ok(u32::MAX));
}

#[test]
fn update_proofs_removes_then_adds() {
    let mut db = HybridWalletDatabase::new(None);
    db.update_proofs(vec![make_proof(1, b"m", b"sat", ProofState::Unspent, None), make_proof(2, b"m", b"sat", ProofState::Unspent, None)], vec![]);
    db.update_proofs(vec![make_proof(3, b"m", b"sat", ProofState::Unspent, None)], vec![vec![1; 33], vec![9; 33]]);
    assert_eq!(ys(&db.get_proofs(None, None, None, None)), vec![2, 3]);
}

#[test]
fn get_proofs_filters() {
    let mut db = HybridWalletDatabase::new(None);
    db.update_proofs(
        vec![
            make_proof(1, b"m1", b"sat", ProofState::Unspent, None),
            make_proof(2, b"m2", b"sat", ProofState::Spent, Some(b"lock")),
            make_proof(3, b"m1", b"usd", ProofState::Pending, Some(b"other")),
        ],
        vec![],
    );
    assert_eq!(ys(&db.get_proofs(Some(b"m1".to_vec()), None, None, None)), vec![1, 3]);
    assert_eq!(ys(&db.get_proofs(None, Some(b"sat".to_vec()), None, None)), vec![1, 2]);
    assert_eq!(ys(&db.get_proofs(None, None, Some(vec![ProofState::Spent, ProofState::Pending]), None)), vec![2, 3]);
    assert_eq!(ys(&db.get_proofs(None, None, None, Some(vec![b"lock".to_vec()]))), vec![2]);
    assert!(db.get_proofs(None, None, None, Some(vec![])).is_empty());
    assert!(db.get_proofs(Some(b"m3".to_vec()), None, None, None).is_empty());
}

#[test]
fn proof_state_changes_in_place() {
    let mut db = HybridWalletDatabase::new(None);
    db.update_proofs(vec![make_proof(1, b"m", b"sat", ProofState::Unspent, None), make_proof(2, b"m", b"sat", ProofState::Unspent, None)], vec![]);
    db.update_proofs_state(vec![vec![2; 33], vec![7; 33]], ProofState::Spent);
    let ps = db.get_proofs(None, None, None, None);
    assert_eq!(ps[0].state, ProofState::Unspent);
    assert_eq!(ps[1].state, ProofState::Spent);
}

#[test]
fn mints_and_rename() {
    let mut db = HybridWalletDatabase::new(None);
    db.add_mint(b"https://a".to_vec(), Some(b"info".to_vec()));
    db.add_mint(b"https://b".to_vec(), None);
    assert_eq!(db.get_mint(&b"https://a".to_vec()), Some(b"info".to_vec()));
    assert_eq!(db.get_mint(&b"https://b".to_vec()), None);
    assert_eq!(db.get_mints().len(), 2);
    db.update_mint_url(&b"https://a".to_vec(), b"https://c".to_vec());
    assert_eq!(db.get_mint(&b"https://a".to_vec()), None);
    assert_eq!(db.get_mint(&b"https://c".to_vec()), Some(b"info".to_vec()));
    db.update_mint_url(&b"https://zz".to_vec(), b"https://d".to_vec());
    assert_eq!(db.get_mints().len(), 2);
    db.remove_mint(&b"https://b".to_vec());
    assert_eq!(db.get_mints().len(), 1);
}

#[test]
fn keysets_quotes_and_keys() {
    let mut db = HybridWalletDatabase::new(None);
    db.add_mint_keysets(b"https://a".to_vec(), vec![Entry { id: b"ks1".to_vec(), body: b"x".to_vec() }, Entry { id: b"ks2".to_vec(), body: b"y".to_vec() }]);
    assert_eq!(db.get_mint_keysets(&b"https://a".to_vec()).unwrap().len(), 2);
    assert_eq!(db.get_keyset_by_id(&b"ks2".to_vec()).unwrap().body, b"y".to_vec());
    assert!(db.get_mint_keysets(&b"https://b".to_vec()).is_none());
    db.add_mint_quote(Entry { id: b"q1".to_vec(), body: b"mq".to_vec() });
    db.add_melt_quote(Entry { id: b"q2".to_vec(), body: b"lq".to_vec() });
    assert_eq!(db.get_mint_quote(&b"q1".to_vec()).unwrap().body, b"mq".to_vec());
    assert_eq!(db.get_melt_quotes().len(), 1);
    db.remove_mint_quote(&b"q1".to_vec());
    assert!(db.get_mint_quotes().is_empty());
    db.remove_melt_quote(&b"q2".to_vec());
    assert!(db.get_melt_quote(&b"q2".to_vec()).is_none());
    db.add_keys(b"ks1".to_vec(), b"keys".to_vec());
    assert_eq!(db.get_keys(&b"ks1".to_vec()), Some(b"keys".to_vec()));
    db.remove_keys(&b"ks1".to_vec());
    assert_eq!(db.get_keys(&b"ks1".to_vec()), None);
}

#[test]
fn transactions_by_derived_id() {
    let mut db = HybridWalletDatabase::new(None);
    let t = Transaction { ys: vec![G.to_vec()], mint_url: b"m".to_vec(), direction: TransactionDirection::Incoming, unit: b"sat".to_vec(), body: vec![1] };
    db.add_transaction(t);
    db.add_transaction(Transaction { ys: vec![vec![1, 2, 3]], mint_url: b"m2".to_vec(), direction: TransactionDirection::Outgoing, unit: b"sat".to_vec(), body: vec![2] });
    let key = cdk_common::nuts::PublicKey::from_slice(&G).unwrap();
    let id = cdk_common::wallet::TransactionId::new(vec![key]).as_bytes().to_vec();
    assert_ne!(id, G.to_vec());
    assert_eq!(db.get_transaction(&id).unwrap().body, vec![1]);
    assert!(db.get_transaction(&G.to_vec()).is_none());
    assert_eq!(db.list_transactions(None, Some(TransactionDirection::Outgoing), None).len(), 1);
    assert_eq!(db.list_transactions(Some(b"m".to_vec()), None, Some(b"sat".to_vec())).len(), 1);
    assert_eq!(db.list_transactions(None, None, None).len(), 2);
    db.remove_transaction(&id);
    assert!(db.get_transaction(&id).is_none());
    assert_eq!(db.list_transactions(None, None, None).len(), 1);
}

#[test]
fn wallet_snapshot_round_trip() {
    let mut db = HybridWalletDatabase::new(None);
    db.add_mint(b"https://a".to_vec(), Some(b"info".to_vec()));
    db.add_mint_keysets(b"https://a".to_vec(), vec![Entry { id: b"ks1".to_vec(), body: b"x".to_vec() }]);
    db.add_mint_quote(Entry { id: b"q1".to_vec(), body: b"mq".to_vec() });
    db.add_keys(b"ks1".to_vec(), b"keys".to_vec());
    db.update_proofs(vec![make_proof(1, b"m", b"sat", ProofState::Reserved, Some(b"c")), make_proof(2, b"m", b"sat", ProofState::PendingSpent, None)], vec![]);
    assert_eq!(db.increment_keyset_counter(&b"ks1".to_vec(), 4), Ok(4));
    db.add_transaction(Transaction { ys: vec![vec![5; 33], vec![6; 33]], mint_url: b"m".to_vec(), direction: TransactionDirection::Outgoing, unit: b"sat".to_vec(), body: vec![] });
    let text = db.snapshot();
    let mut back = HybridWalletDatabase::new(Some(&text));
    assert_eq!(back.get_mint(&b"https://a".to_vec()), Some(b"info".to_vec()));
    assert_eq!(back.get_mint_keysets(&b"https://a".to_vec()).unwrap()[0].body, b"x".to_vec());
    assert_eq!(back.get_keyset_by_id(&b"ks1".to_vec()).unwrap().body, b"x".to_vec());
    assert_eq!(back.get_mint_quote(&b"q1".to_vec()).unwrap().body, b"mq".to_vec());
    assert_eq!(back.get_keys(&b"ks1".to_vec()), Some(b"keys".to_vec()));
    let ps = back.get_proofs(None, None, None, None);
    assert_eq!(ys(&ps), vec![1, 2]);
    assert_eq!(ps[0].state, ProofState::Reserved);
    assert_eq!(ps[0].spending_condition, Some(b"c".to_vec()));
    assert_eq!(ps[1].spending_condition, None);
    assert_eq!(back.list_transactions(None, None, None)[0].ys, vec![vec![5u8; 33], vec![6u8; 33]]);
    assert_eq!(back.increment_keyset_counter(&b"ks1".to_vec(), 1), Ok(5));
    assert_ne!(back.snapshot(), text);
}

#[test]
fn corrupt_wallet_snapshot_gives_an_empty_store() {
    let db = HybridWalletDatabase::new(Some(b"{\"mints\":{}}"));
    assert!(db.get_mints().is_empty());
    assert!(db.get_proofs(None, None, None, None).is_empty());
}

#[test]
fn update_proofs_replaces_a_held_key() {
    let mut db = HybridWalletDatabase::new(None);
    db.update_proofs(vec![make_proof(1, b"m", b"sat", ProofState::Unspent, None)], vec![]);
    db.update_proofs(
        vec![make_proof(1, b"m", b"sat", ProofState::Pending, None), make_proof(1, b"m", b"sat", ProofState::Spent, None), make_proof(2, b"m", b"sat", ProofState::Unspent, None)],
        vec![],
    );
    let ps = db.get_proofs(None, None, None, None);
    assert_eq!(ys(&ps), vec![1, 2]);
    assert_eq!(ps[0].state, ProofState::Pending);
}

#[test]
fn rename_moves_keysets() {
    let mut db = HybridWalletDatabase::new(None);
    db.add_mint(b"https://a".to_vec(), None);
    db.add_mint_keysets(b"https://a".to_vec(), vec![Entry { id: b"ks1".to_vec(), body: b"x".to_vec() }]);
    db.update_mint_url(&b"https://a".to_vec(), b"https://b".to_vec());
    assert!(db.get_mint_keysets(&b"https://a".to_vec()).is_none());
    assert_eq!(db.get_mint_keysets(&b"https://b".to_vec()).unwrap()[0].id, b"ks1".to_vec());
    assert_eq!(db.get_keyset_by_id(&b"ks1".to_vec()).unwrap().body, b"x".to_vec());
}

#[test]
fn wallet_snapshot_with_duplicate_proof_keys_is_refused() {
    let mut db = HybridWalletDatabase::new(None);
    db.update_proofs(vec![make_proof(1, b"m", b"sat", ProofState::Unspent, None)], vec![]);
    let text = String::from_utf8(db.snapshot()).unwrap();
    let lines: Vec<&str> = text.split('\n').collect();
    let doubled_proofs = format!("{}{}", lines[6], lines[6]);
    let mut parts: Vec<String> = lines.iter().map(|l| l.to_string()).collect();
    parts[6] = doubled_proofs;
    let bad = parts.join("\n");
    let loaded = HybridWalletDatabase::new(Some(bad.as_bytes()));
    assert!(loaded.get_proofs(None, None, None, None).is_empty());
    let good = HybridWalletDatabase::new(Some(text.as_bytes()));
    assert_eq!(good.get_proofs(None, None, None, None).len(), 1);
}
