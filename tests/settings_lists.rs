use hybrid_store::settings::{add_relay, add_trusted_mint, is_mint_trusted, relay_scheme_valid, remove_relay, remove_trusted_mint, RelayListError};

#[test]
fn trusted_mints_are_listed_once() {
    let mut mints: Vec<Vec<u8>> = Vec::new();
    assert!(add_trusted_mint(&mut mints, b"https://mint.example".to_vec()));
    assert!(!add_trusted_mint(&mut mints, b"https://mint.example".to_vec()));
    assert_eq!(mints.len(), 1);
    assert!(is_mint_trusted(&mints, &b"https://mint.example".to_vec()));
    assert!(!is_mint_trusted(&mints, &b"https://other".to_vec()));
    assert!(!remove_trusted_mint(&mut mints, &b"https://other".to_vec()));
    assert!(remove_trusted_mint(&mut mints, &b"https://mint.example".to_vec()));
    assert!(mints.is_empty());
}

#[test]
fn relays_need_a_websocket_scheme_and_no_duplicate() {
    let mut relays: Vec<Vec<u8>> = vec![b"wss://a".to_vec()];
    assert_eq!(add_relay(&mut relays, b"https://b".to_vec()), Err(RelayListError::BadScheme));
    assert_eq!(add_relay(&mut relays, b"wss://a".to_vec()), Err(RelayListError::AlreadyListed));
    assert_eq!(add_relay(&mut relays, b"ws://b".to_vec()), Ok(()));
    assert_eq!(relays, vec![b"wss://a".to_vec(), b"ws://b".to_vec()]);
    assert!(relay_scheme_valid(b"wss://x"));
    assert!(!relay_scheme_valid(b"ws:/x"));
}

#[test]
fn the_last_relay_stays() {
    let mut relays: Vec<Vec<u8>> = vec![b"wss://a".to_vec(), b"wss://b".to_vec()];
    assert_eq!(remove_relay(&mut relays, &b"wss://c".to_vec()), Err(RelayListError::NotListed));
    assert_eq!(remove_relay(&mut relays, &b"wss://a".to_vec()), Ok(()));
    assert_eq!(remove_relay(&mut relays, &b"wss://b".to_vec()), Err(RelayListError::LastRelay));
    assert_eq!(relays, vec![b"wss://b".to_vec()]);
}
